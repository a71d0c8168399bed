//! The simple relay that the relay binary runs: every text a client sends goes
//! to everyone in its room, prefixed with the sender's nickname.
use vstd::prelude::*;
use vstd::hash_map::StringHashMap;
use crate::text::push_text;

verus! {

/// The line relayed for `text` sent by `nick`: `nick|text`.
pub fn pipe_line(nick: &str, text: &str) -> (r: String)
    ensures
        r@ == nick@ + "|"@ + text@,
{
    let mut r = nick.to_owned();
    push_text(&mut r, "|");
    push_text(&mut r, text);
    r
}


/// The connections of each room of the simple relay, in joining order.
pub type SimpleRooms = StringHashMap<Vec<u64>>;

/// Connection `conn` joins room `room`, which is opened when needed.
pub fn simple_join(rooms: &mut SimpleRooms, room: &str, conn: u64)
    ensures
        final(rooms)@.dom() == old(rooms)@.dom().insert(room@),
        forall|k: Seq<char>|
            k != room@ && #[trigger] old(rooms)@.contains_key(k) ==> final(rooms)@[k] == old(
                rooms,
            )@[k],
        final(rooms)@[room@]@ == (if old(rooms)@.contains_key(room@) {
            old(rooms)@[room@]@
        } else {
            Seq::empty()
        }).push(conn),
{
    let mut conns: Vec<u64> = Vec::new();
    match rooms.get(room) {
        Some(v) => {
            let mut i: usize = 0;
            while i < v.len()
                invariant
                    i <= v@.len(),
                    conns@ == v@.take(i as int),
                decreases v@.len() - i,
            {
                conns.push(v[i]);
                assert(v@.take(i + 1) =~= v@.take(i as int).push(v@[i as int]));
                i = i + 1;
            }
            assert(v@.take(v@.len() as int) =~= v@);
        },
        None => {},
    }
    conns.push(conn);
    rooms.insert(room.to_owned(), conns);
}

/// The connections a line sent in room `room` goes to: everyone in the room,
/// the sender included.
pub fn simple_targets(rooms: &SimpleRooms, room: &str) -> (r: Vec<u64>)
    ensures
        r@ == (if rooms@.contains_key(room@) {
            rooms@[room@]@
        } else {
            Seq::empty()
        }),
{
    let mut r: Vec<u64> = Vec::new();
    match rooms.get(room) {
        Some(v) => {
            let mut i: usize = 0;
            while i < v.len()
                invariant
                    i <= v@.len(),
                    r@ == v@.take(i as int),
                decreases v@.len() - i,
            {
                r.push(v[i]);
                assert(v@.take(i + 1) =~= v@.take(i as int).push(v@[i as int]));
                i = i + 1;
            }
            assert(v@.take(v@.len() as int) =~= v@);
        },
        None => {},
    }
    r
}

} // verus!
