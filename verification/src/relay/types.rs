//! The relay's data: rooms, their peers, and stored chat messages.
use vstd::prelude::*;
use vstd::hash_map::StringHashMap;

verus! {

/// A participant connected to a room. `conn` names the connection whose
/// outbound channel receives what is sent to this peer.
pub struct RoomPeer {
    pub nick: String,
    pub conn: u64,
}

/// What a peer is, as the contracts see it.
pub struct PeerView {
    pub nick: Seq<char>,
    pub conn: u64,
}

impl View for RoomPeer {
    type V = PeerView;

    open spec fn view(&self) -> PeerView {
        PeerView { nick: self.nick@, conn: self.conn }
    }
}

/// A room: the two nicknames allowed in it (sorted) and who is connected.
pub struct RoomMeta {
    pub allowed: [String; 2],
    pub peers: Vec<RoomPeer>,
}

/// What a room is, as the contracts see it.
pub struct MetaView {
    pub allowed: Seq<Seq<char>>,
    pub peers: Seq<PeerView>,
}

impl View for RoomMeta {
    type V = MetaView;

    open spec fn view(&self) -> MetaView {
        MetaView {
            allowed: self.allowed@.map_values(|s: String| s@),
            peers: self.peers@.map_values(|p: RoomPeer| p@),
        }
    }
}

/// All open rooms, by room id.
pub type Rooms = StringHashMap<RoomMeta>;

/// A chat message as the relay stores it.
pub struct ChatMessage {
    pub msg_id: String,
    pub room: String,
    pub nick: String,
    pub text: String,
    pub timestamp: i64,
    pub deleted: bool,
    pub edited: bool,
}

/// The query parameters of a WebSocket connection request.
pub struct WsParams {
    pub room: String,
    pub nick: String,
    pub friend: String,
}

/// Some peer of `peers` goes by `nick`.
pub open spec fn has_nick(peers: Seq<PeerView>, nick: Seq<char>) -> bool {
    exists|i: int| 0 <= i < peers.len() && (#[trigger] peers[i]).nick == nick
}

/// No two peers share a nickname.
pub open spec fn distinct_nicks(peers: Seq<PeerView>) -> bool {
    forall|i: int, j: int|
        0 <= i < peers.len() && 0 <= j < peers.len() && i != j ==> (#[trigger] peers[i]).nick
            != (#[trigger] peers[j]).nick
}

/// A room in good order: someone is connected, nicknames are unique, and
/// everyone connected is one of the two allowed nicknames.
pub open spec fn meta_wf(m: MetaView) -> bool {
    &&& m.allowed.len() == 2
    &&& m.peers.len() >= 1
    &&& distinct_nicks(m.peers)
    &&& forall|i: int| 0 <= i < m.peers.len() ==> m.allowed.contains(#[trigger] m.peers[i].nick)
}

/// Every open room is in good order.
pub open spec fn rooms_wf(rooms: Map<Seq<char>, RoomMeta>) -> bool {
    forall|k: Seq<char>| #[trigger] rooms.contains_key(k) ==> meta_wf(rooms[k]@)
}

/// A room in good order never holds more than two peers.
pub proof fn lemma_room_holds_at_most_two(m: MetaView)
    requires
        meta_wf(m),
    ensures
        m.peers.len() <= 2,
{
    if m.peers.len() > 2 {
        let a = m.peers[0].nick;
        let b = m.peers[1].nick;
        let c = m.peers[2].nick;
        assert(m.allowed.contains(a));
        assert(m.allowed.contains(b));
        assert(m.allowed.contains(c));
        let x = choose|i: int| 0 <= i < 2 && m.allowed[i] == a;
        let y = choose|i: int| 0 <= i < 2 && m.allowed[i] == b;
        let z = choose|i: int| 0 <= i < 2 && m.allowed[i] == c;
        assert(a != b && a != c && b != c);
    }
}


/// An event the relay sends to clients, one JSON object per WebSocket text frame.
pub enum Outgoing {
    /// A new message from another participant.
    Msg { msg_id: String, nick: String, text: String, timestamp: i64, edited: bool },
    /// The sender's own message was stored under `msg_id`.
    Ack { msg_id: String, timestamp: i64 },
    /// A message's text was changed.
    Edit { msg_id: String, text: String },
    /// A message was deleted.
    Delete { msg_id: String },
    /// A stored message, replayed to a client that just joined.
    History { msg_id: String, nick: String, text: String, timestamp: i64, edited: bool },
    /// A notice from the relay itself (someone joined or left).
    System { text: String },
    /// A request of this client was refused.
    Error { text: String },
}

/// What an outgoing event says, as the contracts see it.
pub enum OutView {
    Msg { msg_id: Seq<char>, nick: Seq<char>, text: Seq<char>, timestamp: i64, edited: bool },
    Ack { msg_id: Seq<char>, timestamp: i64 },
    Edit { msg_id: Seq<char>, text: Seq<char> },
    Delete { msg_id: Seq<char> },
    History { msg_id: Seq<char>, nick: Seq<char>, text: Seq<char>, timestamp: i64, edited: bool },
    System { text: Seq<char> },
    Error { text: Seq<char> },
}

impl View for Outgoing {
    type V = OutView;

    open spec fn view(&self) -> OutView {
        match self {
            Outgoing::Msg { msg_id, nick, text, timestamp, edited } => OutView::Msg {
                msg_id: msg_id@,
                nick: nick@,
                text: text@,
                timestamp: *timestamp,
                edited: *edited,
            },
            Outgoing::Ack { msg_id, timestamp } => OutView::Ack {
                msg_id: msg_id@,
                timestamp: *timestamp,
            },
            Outgoing::Edit { msg_id, text } => OutView::Edit { msg_id: msg_id@, text: text@ },
            Outgoing::Delete { msg_id } => OutView::Delete { msg_id: msg_id@ },
            Outgoing::History { msg_id, nick, text, timestamp, edited } => OutView::History {
                msg_id: msg_id@,
                nick: nick@,
                text: text@,
                timestamp: *timestamp,
                edited: *edited,
            },
            Outgoing::System { text } => OutView::System { text: text@ },
            Outgoing::Error { text } => OutView::Error { text: text@ },
        }
    }
}

} // verus!
