use viva_chat::common::models::Message;
use viva_chat::relay::fanout::{broadcast, broadcast_except, broadcast_system};
use viva_chat::relay::db::{history_event, history_query, sv, HISTORY_LIMIT};
use viva_chat::relay::events::{
    after_post, after_update, deliver, handle_event, handle_frame, post_record, read_event,
    update_fields, Audience, Change, Delivery, EventAction, EventPlan, UpdateRequest,
};
use viva_chat::relay::routes::{fetch_messages, send_message};
use viva_chat::relay::simple::{pipe_line, simple_join, simple_targets, SimpleRooms};
use viva_chat::relay::socket::{
    check_params, enter_room, joined_notice, leave_room, left_notice, room_id, JoinError,
};
use viva_chat::relay::types::{ChatMessage, Outgoing, Rooms, WsParams};

fn ev(s: &str) -> serde_json::Value {
    serde_json::from_str(s).unwrap()
}

fn params(room: &str, nick: &str, friend: &str) -> WsParams {
    WsParams { room: room.to_string(), nick: nick.to_string(), friend: friend.to_string() }
}

fn nicks(rooms: &Rooms, room: &str) -> Vec<(String, u64)> {
    rooms.get(room).unwrap().peers.iter().map(|p| (p.nick.clone(), p.conn)).collect()
}

#[test]
fn room_ids() {
    assert_eq!(room_id("  key ", "Bob", "alice"), "key::alice::bob");
    assert_eq!(room_id("key", "alice", "Bob"), room_id("key", "Bob", "alice"));
    assert_eq!(room_id("k", "ÉMILE", "zoe"), "k::zoe::émile");
    assert_eq!(room_id("k", "Same", "same"), "k::same::same");
}

#[test]
fn params_are_checked() {
    assert!(matches!(check_params(&params("k", " ", "b")), Err(JoinError::MissingFields)));
    assert!(matches!(check_params(&params("k", "a", "")), Err(JoinError::MissingFields)));
    assert!(matches!(check_params(&params(" \t", "a", "b")), Err(JoinError::MissingFields)));
    assert!(matches!(check_params(&params("k", " a", "a ")), Err(JoinError::SameNick)));
    let t = check_params(&params(" secret ", " Alice ", "bob")).unwrap();
    assert_eq!((t.nick.as_str(), t.friend.as_str(), t.room.as_str()), ("Alice", "bob", "secret::alice::bob"));
}

#[test]
fn refusal_texts() {
    assert_eq!(JoinError::MissingFields.message(), "nick, friend, and room key are all required.");
    assert_eq!(JoinError::SameNick.message(), "Your nickname and your friend's nickname must be different.");
    assert_eq!(JoinError::AccessDenied.message(), "Access denied: nickname or friend key does not match this room.");
    assert_eq!(JoinError::NickInUse.message(), "This nickname is already connected in this room.");
}

#[test]
fn rooms_let_in_two_people() {
    let mut rooms = Rooms::new();
    assert_eq!(enter_room(&mut rooms, "r", "bob", "alice", 1, &vec![]), Ok(()));
    let m = rooms.get("r").unwrap();
    assert_eq!(m.allowed, ["alice".to_string(), "bob".to_string()]);
    assert_eq!(enter_room(&mut rooms, "r", "alice", "bob", 2, &vec![]), Ok(()));
    assert_eq!(nicks(&rooms, "r"), vec![("bob".to_string(), 1), ("alice".to_string(), 2)]);
    // a stranger is refused, and nothing changes
    assert_eq!(enter_room(&mut rooms, "r", "eve", "bob", 3, &vec![]), Err(JoinError::AccessDenied));
    assert_eq!(nicks(&rooms, "r").len(), 2);
    // the same nickname twice is refused while the first connection lives
    assert_eq!(enter_room(&mut rooms, "r", "bob", "alice", 4, &vec![]), Err(JoinError::NickInUse));
    // a dead connection of the same nickname is replaced
    assert_eq!(enter_room(&mut rooms, "r", "bob", "alice", 5, &vec![1]), Ok(()));
    assert_eq!(nicks(&rooms, "r"), vec![("alice".to_string(), 2), ("bob".to_string(), 5)]);
}

#[test]
fn leaving_closes_empty_rooms() {
    let mut rooms = Rooms::new();
    enter_room(&mut rooms, "r", "bob", "alice", 1, &vec![]).unwrap();
    enter_room(&mut rooms, "r", "alice", "bob", 2, &vec![]).unwrap();
    leave_room(&mut rooms, "r", "bob");
    assert_eq!(nicks(&rooms, "r"), vec![("alice".to_string(), 2)]);
    leave_room(&mut rooms, "r", "nobody");
    assert_eq!(nicks(&rooms, "r").len(), 1);
    leave_room(&mut rooms, "r", "alice");
    assert!(rooms.get("r").is_none());
    leave_room(&mut rooms, "r", "alice");
    assert!(rooms.get("r").is_none());
}

#[test]
fn fan_out() {
    let mut rooms = Rooms::new();
    enter_room(&mut rooms, "r", "bob", "alice", 10, &vec![]).unwrap();
    enter_room(&mut rooms, "r", "alice", "bob", 20, &vec![]).unwrap();
    let f = broadcast(&rooms, "r", Outgoing::Delete { msg_id: "m".to_string() });
    assert_eq!(f.conns, vec![10, 20]);
    let f = broadcast_except(&rooms, "r", Outgoing::Delete { msg_id: "m".to_string() }, 10);
    assert_eq!(f.conns, vec![20]);
    let f = broadcast_system(&rooms, "r", "bob joined");
    assert_eq!(f.conns, vec![10, 20]);
    assert!(matches!(f.event, Outgoing::System { ref text } if text == "bob joined"));
    assert!(broadcast(&rooms, "other", Outgoing::Delete { msg_id: "m".to_string() }).conns.is_empty());
    let d = deliver(&rooms, "r", 20, Delivery { to: Audience::Sender, event: Outgoing::Error { text: "x".to_string() } });
    assert_eq!(d.conns, vec![20]);
    let d = deliver(&rooms, "r", 20, Delivery { to: Audience::RoomExceptSender, event: Outgoing::Error { text: "x".to_string() } });
    assert_eq!(d.conns, vec![10]);
    let d = deliver(&rooms, "r", 20, Delivery { to: Audience::Room, event: Outgoing::Error { text: "x".to_string() } });
    assert_eq!(d.conns, vec![10, 20]);
}

#[test]
fn notices() {
    assert_eq!(joined_notice("bob"), "bob joined");
    assert_eq!(left_notice("bob"), "bob left");
}

#[test]
fn reading_events() {
    assert!(matches!(read_event(&ev(r#"{"type":"msg","text":"  hi "}"#)), EventPlan::Post { ref text } if text == "  hi "));
    assert!(matches!(read_event(&ev(r#"{"type":"msg","text":"   "}"#)), EventPlan::Ignore));
    assert!(matches!(read_event(&ev(r#"{"type":"msg","text":5}"#)), EventPlan::Ignore));
    assert!(matches!(read_event(&ev(r#"{"type":"edit","msg_id":"m","text":"new"}"#)), EventPlan::Edit { ref msg_id, ref text } if msg_id == "m" && text == "new"));
    assert!(matches!(read_event(&ev(r#"{"type":"edit","msg_id":"","text":"new"}"#)), EventPlan::Ignore));
    assert!(matches!(read_event(&ev(r#"{"type":"edit","msg_id":"m","text":" "}"#)), EventPlan::Ignore));
    assert!(matches!(read_event(&ev(r#"{"type":"delete","msg_id":"m"}"#)), EventPlan::Delete { ref msg_id } if msg_id == "m"));
    assert!(matches!(read_event(&ev(r#"{"type":"delete"}"#)), EventPlan::Ignore));
    assert!(matches!(read_event(&ev(r#"{"type":"dance"}"#)), EventPlan::Ignore));
    assert!(matches!(read_event(&ev(r#"null"#)), EventPlan::Ignore));
}

#[test]
fn posting_gets_an_id_and_time() {
    match handle_event(&ev(r#"{"type":"msg","text":"hello"}"#), "bob", "room1") {
        EventAction::Store { record } => {
            assert_eq!((record.room.as_str(), record.nick.as_str(), record.text.as_str()), ("room1", "bob", "hello"));
            assert!(!record.deleted && !record.edited);
            assert_eq!(record.msg_id.len(), 36);
            assert!(uuid::Uuid::parse_str(&record.msg_id).is_ok());
            assert!(record.timestamp > 1_600_000_000_000);
        }
        _ => panic!("expected a new message"),
    }
    match handle_event(&ev(r#"{"type":"edit","msg_id":"m1","text":"t"}"#), "bob", "room1") {
        EventAction::Update { request } => {
            assert_eq!((request.msg_id.as_str(), request.nick.as_str(), request.room.as_str()), ("m1", "bob", "room1"));
            assert!(matches!(request.change, Change::SetText { ref text } if text == "t"));
        }
        _ => panic!("expected an update"),
    }
    match handle_event(&ev(r#"{"type":"delete","msg_id":"m1"}"#), "bob", "room1") {
        EventAction::Update { request } => assert!(matches!(request.change, Change::MarkDeleted)),
        _ => panic!("expected an update"),
    }
    assert!(matches!(handle_event(&ev(r#"{"type":"msg"}"#), "bob", "room1"), EventAction::Nothing));
}

#[test]
fn replies_after_a_post() {
    let rec = post_record("id-1".to_string(), 99, "r", "bob", "hey".to_string());
    let d = after_post(&rec);
    assert_eq!(d.len(), 2);
    assert_eq!(d[0].to, Audience::RoomExceptSender);
    assert!(matches!(&d[0].event, Outgoing::Msg { msg_id, nick, text, timestamp: 99, edited: false } if msg_id == "id-1" && nick == "bob" && text == "hey"));
    assert_eq!(d[1].to, Audience::Sender);
    assert!(matches!(&d[1].event, Outgoing::Ack { msg_id, timestamp: 99 } if msg_id == "id-1"));
}

#[test]
fn replies_after_an_update() {
    let edit = UpdateRequest { msg_id: "m".to_string(), nick: "bob".to_string(), room: "r".to_string(), change: Change::SetText { text: "n".to_string() } };
    let del = UpdateRequest { msg_id: "m".to_string(), nick: "bob".to_string(), room: "r".to_string(), change: Change::MarkDeleted };
    let d = after_update(&edit, Some(0));
    assert_eq!(d.to, Audience::Sender);
    assert!(matches!(d.event, Outgoing::Error { ref text } if text == "Message not found or not yours to edit."));
    let d = after_update(&del, Some(0));
    assert!(matches!(d.event, Outgoing::Error { ref text } if text == "Message not found or not yours to delete."));
    let d = after_update(&edit, Some(1));
    assert_eq!(d.to, Audience::Room);
    assert!(matches!(d.event, Outgoing::Edit { ref msg_id, ref text } if msg_id == "m" && text == "n"));
    let d = after_update(&del, None);
    assert_eq!(d.to, Audience::Room);
    assert!(matches!(d.event, Outgoing::Delete { ref msg_id } if msg_id == "m"));
}

#[test]
fn history_replay() {
    let q = history_query("r1");
    assert_eq!((q.room.as_str(), q.limit), ("r1", 100));
    assert!(!q.include_deleted);
    assert!(q.oldest_first);
    assert_eq!(HISTORY_LIMIT, 100);
    let m = ChatMessage { msg_id: "a".to_string(), room: "r1".to_string(), nick: "bob".to_string(), text: "t".to_string(), timestamp: 3, deleted: false, edited: true };
    assert!(matches!(history_event(&m), Outgoing::History { ref msg_id, ref nick, ref text, timestamp: 3, edited: true } if msg_id == "a" && nick == "bob" && text == "t"));
    assert_eq!(sv(&ev(r#"{"k":"v"}"#), "k"), "v");
    assert_eq!(sv(&ev(r#"{"k":1}"#), "k"), "");
}

#[test]
fn simple_relay() {
    assert_eq!(pipe_line("bob", "hi|there"), "bob|hi|there");
    let mut rooms = SimpleRooms::new();
    simple_join(&mut rooms, "r", 1);
    simple_join(&mut rooms, "r", 2);
    simple_join(&mut rooms, "s", 3);
    assert_eq!(simple_targets(&rooms, "r"), vec![1, 2]);
    assert_eq!(simple_targets(&rooms, "s"), vec![3]);
    assert!(simple_targets(&rooms, "t").is_empty());
}

#[test]
fn http_routes() {
    let m = Message { id: "1".to_string(), room_id: "r".to_string(), sender: "bob".to_string(), timestamp: 0, encrypted_payload: vec![1, 2] };
    assert_eq!(send_message(m), "Message received");
    assert!(fetch_messages("r".to_string()).is_empty());
}

#[test]
fn frames_are_parsed() {
    assert!(matches!(handle_frame("not json", "bob", "r"), EventAction::Nothing));
    assert!(matches!(handle_frame("", "bob", "r"), EventAction::Nothing));
    assert!(matches!(handle_frame(r#"{"type":"msg","text":"  "}"#, "bob", "r"), EventAction::Nothing));
    match handle_frame(r#"{"type":"delete","msg_id":"m7"}"#, "bob", "r") {
        EventAction::Update { request } => {
            assert_eq!((request.msg_id.as_str(), request.nick.as_str(), request.room.as_str()), ("m7", "bob", "r"));
            assert!(matches!(request.change, Change::MarkDeleted));
        }
        _ => panic!("expected an update"),
    }
    match handle_frame(r#"{"type":"msg","text":"hi"}"#, "bob", "r") {
        EventAction::Store { record } => {
            assert_eq!((record.text.as_str(), record.nick.as_str(), record.room.as_str()), ("hi", "bob", "r"));
            assert_eq!(record.msg_id.len(), 36);
        }
        _ => panic!("expected a new message"),
    }
}

#[test]
fn fields_an_update_writes() {
    let f = update_fields(&Change::SetText { text: "new".to_string() });
    assert_eq!(f.text.as_deref(), Some("new"));
    assert!(f.sets_edited && !f.sets_deleted);
    let f = update_fields(&Change::MarkDeleted);
    assert!(f.text.is_none() && !f.sets_edited && f.sets_deleted);
}

#[test]
fn room_ids_ignore_case_and_key_padding() {
    assert_eq!(room_id("  key ", "Alice", "bob"), room_id("key", "ALICE", "bob"));
    assert_eq!(room_id("key", "alice", "BOB"), room_id("key", "bob", "alice"));
    assert_eq!(room_id("\u{3000}key\t", "Zed", "amy"), "key::amy::zed");
}

#[test]
fn system_notice_is_a_broadcast() {
    let mut rooms = Rooms::new();
    assert_eq!(enter_room(&mut rooms, "r", "ann", "bob", 4, &Vec::new()), Ok(()));
    assert_eq!(enter_room(&mut rooms, "r", "bob", "ann", 9, &Vec::new()), Ok(()));
    let a = broadcast_system(&rooms, "r", "x left");
    let b = broadcast(&rooms, "r", Outgoing::System { text: "x left".to_string() });
    assert_eq!(a.conns, b.conns);
    assert!(matches!((a.event, b.event), (Outgoing::System { text: t1 }, Outgoing::System { text: t2 }) if t1 == t2 && t1 == "x left"));
}
