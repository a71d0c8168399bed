//! Fan-out: which connections of a room receive an event.
use vstd::prelude::*;
use crate::relay::types::{RoomMeta, PeerView, Rooms, Outgoing, OutView};

verus! {

/// An event and the connections it goes to, in order.
pub struct Fanout {
    pub conns: Vec<u64>,
    pub event: Outgoing,
}

/// The connections of everyone in room `room`, in joining order (none when
/// the room is not open).
pub open spec fn room_conns(rooms: Map<Seq<char>, RoomMeta>, room: Seq<char>) -> Seq<u64> {
    if rooms.contains_key(room) {
        rooms[room]@.peers.map_values(|p: PeerView| p.conn)
    } else {
        Seq::empty()
    }
}

/// `s` without the connection `skip`.
pub open spec fn without_conn(s: Seq<u64>, skip: u64) -> Seq<u64> {
    s.filter(|c: u64| c != skip)
}

fn conns_of(rooms: &Rooms, room: &str, skip: Option<u64>) -> (r: Vec<u64>)
    ensures
        skip is None ==> r@ == room_conns(rooms@, room@),
        skip matches Some(s) ==> r@ == without_conn(room_conns(rooms@, room@), s),
{
    let ghost all = room_conns(rooms@, room@);
    let ghost pred = |c: u64| c != skip->0;
    let mut r: Vec<u64> = Vec::new();
    match rooms.get(room) {
        Some(meta) => {
            let mut i: usize = 0;
            while i < meta.peers.len()
                invariant
                    i <= meta.peers@.len(),
                    all == meta@.peers.map_values(|p: PeerView| p.conn),
                    all.len() == meta.peers@.len(),
                    pred == (|c: u64| c != skip->0),
                    skip is None ==> r@ == all.take(i as int),
                    skip is Some ==> r@ == all.take(i as int).filter(pred),
                decreases meta.peers@.len() - i,
            {
                let c = meta.peers[i].conn;
                assert(all[i as int] == c);
                assert(all.take(i + 1) =~= all.take(i as int).push(c));
                proof {
                    all.take(i as int).lemma_filter_push(c, pred);
                }
                match skip {
                    Some(s) => {
                        if c != s {
                            r.push(c);
                        }
                    },
                    None => {
                        r.push(c);
                    },
                }
                i = i + 1;
            }
            assert(all.take(meta.peers@.len() as int) =~= all);
        },
        None => {
            proof {
                reveal(Seq::filter);
            }
            assert(r@ =~= Seq::<u64>::empty());
        },
    }
    r
}

/// `f` sends the event `event` to everyone in room `room`, in joining order.
pub open spec fn sent_to_room(rooms: Map<Seq<char>, RoomMeta>, room: Seq<char>, event: OutView, f: Fanout) -> bool {
    f.conns@ == room_conns(rooms, room) && f.event@ == event
}

/// Sends `event` to everyone in room `room`.
pub fn broadcast(rooms: &Rooms, room: &str, event: Outgoing) -> (r: Fanout)
    ensures
        sent_to_room(rooms@, room@, event@, r),
        r.conns@ == room_conns(rooms@, room@),
        r.event == event,
{
    Fanout { conns: conns_of(rooms, room, None), event }
}

/// Sends `event` to everyone in room `room` but the connection `skip`.
pub fn broadcast_except(rooms: &Rooms, room: &str, event: Outgoing, skip: u64) -> (r: Fanout)
    ensures
        r.conns@ == without_conn(room_conns(rooms@, room@), skip),
        r.event == event,
{
    Fanout { conns: conns_of(rooms, room, Some(skip)), event }
}

/// Sends the notice `text` to everyone in room `room`: the same as
/// `broadcast` of a `system` event with that text.
pub fn broadcast_system(rooms: &Rooms, room: &str, text: &str) -> (r: Fanout)
    ensures
        sent_to_room(rooms@, room@, OutView::System { text: text@ }, r),
{
    broadcast(rooms, room, Outgoing::System { text: text.to_owned() })
}

} // verus!
