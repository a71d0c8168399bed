//! Joining and leaving rooms, and the checks made on a connection request.
use vstd::prelude::*;
use crate::relay::types::{
    RoomPeer, PeerView, RoomMeta, MetaView, Rooms, WsParams, has_nick, distinct_nicks, meta_wf,
    rooms_wf,
};
use crate::text::{
    text_le, text_before, same_text, trimmed, trim, lower_text, to_lower, push_text,
    lemma_text_le_total, lemma_text_le_antisymmetric, is_ascii_text, ascii_upper,
    lemma_lower_of_upper, lemma_trimmed_idempotent,
};

verus! {

/// Why a connection is refused a room.
#[derive(PartialEq, Eq, Structural, Debug, Clone, Copy)]
pub enum JoinError {
    /// The nickname, the friend's nickname or the room key is blank.
    MissingFields,
    /// The two nicknames are the same.
    SameNick,
    /// The room exists and does not let this pair in of nicknames.
    AccessDenied,
    /// Someone with this nickname is already connected to the room.
    NickInUse,
}

/// The two allowed nicknames of a room created by `nick` for `friend`, sorted.
pub open spec fn fresh_meta(nick: Seq<char>, friend: Seq<char>) -> MetaView {
    MetaView {
        allowed: if text_le(nick, friend) {
            seq![nick, friend]
        } else {
            seq![friend, nick]
        },
        peers: Seq::empty(),
    }
}

/// The room lets in both `nick` and `friend`.
pub open spec fn may_enter(m: MetaView, nick: Seq<char>, friend: Seq<char>) -> bool {
    m.allowed.contains(nick) && m.allowed.contains(friend)
}

/// A peer that is a dead earlier connection of `nick`.
pub open spec fn is_stale(p: PeerView, nick: Seq<char>, closed: Seq<u64>) -> bool {
    p.nick == nick && closed.contains(p.conn)
}

/// `m` without the dead earlier connections of `nick`.
pub open spec fn pruned(m: MetaView, nick: Seq<char>, closed: Seq<u64>) -> MetaView {
    MetaView {
        allowed: m.allowed,
        peers: m.peers.filter(|p: PeerView| !is_stale(p, nick, closed)),
    }
}

/// `m` without anyone named `nick`.
pub open spec fn without_nick(m: MetaView, nick: Seq<char>) -> MetaView {
    MetaView { allowed: m.allowed, peers: m.peers.filter(|p: PeerView| p.nick != nick) }
}

proof fn lemma_filter_subset(s: Seq<PeerView>, pred: spec_fn(PeerView) -> bool, i: int)
    requires
        0 <= i < s.filter(pred).len(),
    ensures
        s.contains(s.filter(pred)[i]),
        pred(s.filter(pred)[i]),
{
    broadcast use vstd::seq_lib::group_filter_ensures;
    assert(s.filter(pred).contains(s.filter(pred)[i]));
    s.lemma_filter_contains_rev(pred, s.filter(pred)[i]);
}

proof fn lemma_filter_distinct(s: Seq<PeerView>, pred: spec_fn(PeerView) -> bool)
    requires
        distinct_nicks(s),
    ensures
        distinct_nicks(s.filter(pred)),
    decreases s.len(),
{
    reveal(Seq::filter);
    if s.len() > 0 {
        let d = s.drop_last();
        assert forall|i: int, j: int|
            0 <= i < d.len() && 0 <= j < d.len() && i != j implies (#[trigger] d[i]).nick
            != (#[trigger] d[j]).nick by {
            assert(d[i] == s[i] && d[j] == s[j]);
        }
        lemma_filter_distinct(d, pred);
        let f = d.filter(pred);
        if pred(s.last()) {
            let g = f.push(s.last());
            assert forall|i: int, j: int|
                0 <= i < g.len() && 0 <= j < g.len() && i != j implies (#[trigger] g[i]).nick
                != (#[trigger] g[j]).nick by {
                if i == f.len() as int || j == f.len() as int {
                    let k = if i == f.len() as int {
                        j
                    } else {
                        i
                    };
                    lemma_filter_subset(d, pred, k);
                    let w = choose|w: int| 0 <= w < d.len() && d[w] == f[k];
                    assert(s[w] == d[w]);
                    assert(s[s.len() - 1] == s.last());
                }
            }
        }
    }
}

/// A room in good order stays so when some peers leave, as long as one remains.
proof fn lemma_filter_keeps_wf(m: MetaView, pred: spec_fn(PeerView) -> bool)
    requires
        meta_wf(m),
        m.peers.filter(pred).len() >= 1,
    ensures
        meta_wf(MetaView { allowed: m.allowed, peers: m.peers.filter(pred) }),
{
    lemma_filter_distinct(m.peers, pred);
    let f = m.peers.filter(pred);
    assert forall|i: int| 0 <= i < f.len() implies m.allowed.contains(#[trigger] f[i].nick) by {
        lemma_filter_subset(m.peers, pred, i);
        let w = choose|w: int| 0 <= w < m.peers.len() && m.peers[w] == f[i];
        assert(m.allowed.contains(m.peers[w].nick));
    }
}

/// Whether `v` holds `x`.
fn holds_u64(v: &Vec<u64>, x: u64) -> (r: bool)
    ensures
        r == v@.contains(x),
{
    let mut i: usize = 0;
    while i < v.len()
        invariant
            i <= v@.len(),
            forall|j: int| 0 <= j < i ==> v@[j] != x,
        decreases v@.len() - i,
    {
        if v[i] == x {
            return true;
        }
        i = i + 1;
    }
    false
}

/// A copy of a peer.
fn copy_peer(p: &RoomPeer) -> (r: RoomPeer)
    ensures
        r@ == p@,
{
    RoomPeer { nick: p.nick.clone(), conn: p.conn }
}

/// The peers of `peers` that are not dead earlier connections of `nick`.
fn prune_stale(peers: &Vec<RoomPeer>, nick: &str, closed: &Vec<u64>) -> (r: Vec<RoomPeer>)
    ensures
        r@.map_values(|p: RoomPeer| p@) == peers@.map_values(|p: RoomPeer| p@).filter(
            |p: PeerView| !is_stale(p, nick@, closed@),
        ),
{
    let ghost src = peers@.map_values(|p: RoomPeer| p@);
    let ghost pred = |p: PeerView| !is_stale(p, nick@, closed@);
    let mut r: Vec<RoomPeer> = Vec::new();
    let mut i: usize = 0;
    while i < peers.len()
        invariant
            i <= peers@.len(),
            src == peers@.map_values(|p: RoomPeer| p@),
            pred == (|p: PeerView| !is_stale(p, nick@, closed@)),
            r@.map_values(|p: RoomPeer| p@) == src.take(i as int).filter(pred),
        decreases peers@.len() - i,
    {
        let p = &peers[i];
        let stale = same_text(p.nick.as_str(), nick) && holds_u64(closed, p.conn);
        let ghost before = r@.map_values(|p: RoomPeer| p@);
        proof {
            assert(src[i as int] == peers@[i as int]@);
            assert(stale == !pred(src[i as int]));
            assert(src.take(i + 1) =~= src.take(i as int).push(src[i as int]));
            src.take(i as int).lemma_filter_push(src[i as int], pred);
        }
        if !stale {
            let q = copy_peer(p);
            r.push(q);
            assert(r@.map_values(|p: RoomPeer| p@) =~= before.push(src[i as int]));
        }
        i = i + 1;
    }
    assert(src.take(peers@.len() as int) =~= src);
    r
}


/// The peers of `peers` not named `nick`.
fn drop_nick(peers: &Vec<RoomPeer>, nick: &str) -> (r: Vec<RoomPeer>)
    ensures
        r@.map_values(|p: RoomPeer| p@) == peers@.map_values(|p: RoomPeer| p@).filter(
            |p: PeerView| p.nick != nick@,
        ),
{
    let ghost src = peers@.map_values(|p: RoomPeer| p@);
    let ghost pred = |p: PeerView| p.nick != nick@;
    let mut r: Vec<RoomPeer> = Vec::new();
    let mut i: usize = 0;
    while i < peers.len()
        invariant
            i <= peers@.len(),
            src == peers@.map_values(|p: RoomPeer| p@),
            pred == (|p: PeerView| p.nick != nick@),
            r@.map_values(|p: RoomPeer| p@) == src.take(i as int).filter(pred),
        decreases peers@.len() - i,
    {
        let p = &peers[i];
        let named = same_text(p.nick.as_str(), nick);
        let ghost before = r@.map_values(|p: RoomPeer| p@);
        proof {
            assert(src[i as int] == peers@[i as int]@);
            assert(named == !pred(src[i as int]));
            assert(src.take(i + 1) =~= src.take(i as int).push(src[i as int]));
            src.take(i as int).lemma_filter_push(src[i as int], pred);
        }
        if !named {
            let q = copy_peer(p);
            r.push(q);
            assert(r@.map_values(|p: RoomPeer| p@) =~= before.push(src[i as int]));
        }
        i = i + 1;
    }
    assert(src.take(peers@.len() as int) =~= src);
    r
}

/// Whether some peer of `peers` goes by `nick`.
fn any_named(peers: &Vec<RoomPeer>, nick: &str) -> (r: bool)
    ensures
        r == has_nick(peers@.map_values(|p: RoomPeer| p@), nick@),
{
    let ghost src = peers@.map_values(|p: RoomPeer| p@);
    let mut i: usize = 0;
    while i < peers.len()
        invariant
            i <= peers@.len(),
            src == peers@.map_values(|p: RoomPeer| p@),
            forall|j: int| 0 <= j < i ==> (#[trigger] src[j]).nick != nick@,
        decreases peers@.len() - i,
    {
        assert(src[i as int] == peers@[i as int]@);
        if same_text(peers[i].nick.as_str(), nick) {
            return true;
        }
        i = i + 1;
    }
    false
}

/// Whether `nick` is one of the two allowed nicknames.
fn allows(allowed: &[String; 2], nick: &str) -> (r: bool)
    ensures
        r == allowed@.map_values(|s: String| s@).contains(nick@),
{
    let ghost a = allowed@.map_values(|s: String| s@);
    assert(a[0] == allowed@[0]@ && a[1] == allowed@[1]@);
    let r = same_text(allowed[0].as_str(), nick) || same_text(allowed[1].as_str(), nick);
    proof {
        if a.contains(nick@) {
            let k = choose|k: int| 0 <= k < a.len() && a[k] == nick@;
            assert(k == 0 || k == 1);
        }
    }
    r
}

/// The nicknames `nick` and `friend`, sorted.
fn sorted_pair(nick: &str, friend: &str) -> (r: [String; 2])
    ensures
        r@.map_values(|s: String| s@) == fresh_meta(nick@, friend@).allowed,
{
    let r = if text_before(nick, friend) {
        [nick.to_owned(), friend.to_owned()]
    } else {
        [friend.to_owned(), nick.to_owned()]
    };
    assert(r@.map_values(|s: String| s@) =~= fresh_meta(nick@, friend@).allowed);
    r
}

/// A new room always lets in the pair that opened it.
proof fn lemma_fresh_room_lets_pair_in(nick: Seq<char>, friend: Seq<char>)
    ensures
        may_enter(fresh_meta(nick, friend), nick, friend),
{
    let a = fresh_meta(nick, friend).allowed;
    if text_le(nick, friend) {
        assert(a[0] == nick && a[1] == friend);
    } else {
        assert(a[1] == nick && a[0] == friend);
    }
}

/// The room `room` as `enter_room` finds it: the open room, or a new one.
pub open spec fn room_before(
    rooms: Map<Seq<char>, RoomMeta>,
    room: Seq<char>,
    nick: Seq<char>,
    friend: Seq<char>,
) -> MetaView {
    if rooms.contains_key(room) {
        rooms[room]@
    } else {
        fresh_meta(nick, friend)
    }
}

/// How `enter_room` changes the rooms `before` into `after`, answering `r`:
/// only room `room` changes; it is refused when it does not let both nicknames
/// in; otherwise dead earlier connections of `nick` go, and the connection is
/// refused when `nick` is still there, or joins at the end.
pub open spec fn entered(
    before: Map<Seq<char>, RoomMeta>,
    after: Map<Seq<char>, RoomMeta>,
    room: Seq<char>,
    nick: Seq<char>,
    friend: Seq<char>,
    conn: u64,
    closed: Seq<u64>,
    r: Result<(), JoinError>,
) -> bool {
    let m = room_before(before, room, nick, friend);
    let kept = pruned(m, nick, closed);
    &&& after.dom() == before.dom().insert(room)
    &&& forall|k: Seq<char>|
        k != room && #[trigger] before.contains_key(k) ==> after[k] == before[k]
    &&& !may_enter(m, nick, friend) ==> r == Err::<(), JoinError>(JoinError::AccessDenied)
        && after[room]@ == m && after == before
    &&& may_enter(m, nick, friend) && has_nick(kept.peers, nick) ==> r == Err::<(), JoinError>(
        JoinError::NickInUse,
    ) && after[room]@ == kept
    &&& may_enter(m, nick, friend) && !has_nick(kept.peers, nick) ==> r == Ok::<(), JoinError>(())
        && after[room]@ == (MetaView {
        allowed: kept.allowed,
        peers: kept.peers.push(PeerView { nick, conn }),
    })
}

/// Admits connection `conn` of `nick` (talking to `friend`) to room `room`.
///
/// A room that does not exist is opened for the sorted pair of nicknames.
/// The connection is refused when the room does not allow both nicknames;
/// otherwise earlier connections of `nick` whose channels are closed
/// (their ids are in `closed`) are dropped, and the connection is refused
/// when `nick` is still connected; otherwise it joins the room.
pub fn enter_room(
    rooms: &mut Rooms,
    room: &str,
    nick: &str,
    friend: &str,
    conn: u64,
    closed: &Vec<u64>,
) -> (r: Result<(), JoinError>)
    ensures
        entered(old(rooms)@, final(rooms)@, room@, nick@, friend@, conn, closed@, r),
        rooms_wf(old(rooms)@) ==> rooms_wf(final(rooms)@),
{
    let ghost before = room_before(rooms@, room@, nick@, friend@);
    proof {
        lemma_fresh_room_lets_pair_in(nick@, friend@);
    }
    let (allowed, peers) = match rooms.get(room) {
        Some(meta) => {
            let allowed = [meta.allowed[0].clone(), meta.allowed[1].clone()];
            assert(allowed@.map_values(|s: String| s@) =~= before.allowed);
            if !(allows(&allowed, nick) && allows(&allowed, friend)) {
                assert(rooms@.dom().insert(room@) =~= rooms@.dom());
                return Err(JoinError::AccessDenied);
            }
            (allowed, prune_stale(&meta.peers, nick, closed))
        },
        None => {
            let allowed = sorted_pair(nick, friend);
            let peers: Vec<RoomPeer> = Vec::new();
            assert(before.peers.filter(|p: PeerView| !is_stale(p, nick@, closed@)) =~= Seq::<
                PeerView,
            >::empty()) by {
                reveal(Seq::filter);
            }
            assert(peers@.map_values(|p: RoomPeer| p@) =~= Seq::<PeerView>::empty());
            (allowed, peers)
        },
    };
    let ghost kept = pruned(before, nick@, closed@);
    assert(peers@.map_values(|p: RoomPeer| p@) == kept.peers);
    let mut peers = peers;
    if any_named(&peers, nick) {
        let meta = RoomMeta { allowed, peers };
        assert(meta@ =~= kept);
        rooms.insert(room.to_owned(), meta);
        proof {
            if rooms_wf(old(rooms)@) {
                assert(old(rooms)@.contains_key(room@)) by {
                    if !old(rooms)@.contains_key(room@) {
                        reveal(Seq::filter);
                        assert(kept.peers.len() == 0);
                    }
                }
                assert(meta_wf(before));
                let w = choose|i: int| 0 <= i < kept.peers.len() && kept.peers[i].nick == nick@;
                lemma_filter_keeps_wf(before, |p: PeerView| !is_stale(p, nick@, closed@));
                assert forall|k: Seq<char>| #[trigger] rooms@.contains_key(k) implies meta_wf(
                    rooms@[k]@,
                ) by {
                    if k != room@ {
                        assert(old(rooms)@.contains_key(k));
                    }
                }
            }
        }
        return Err(JoinError::NickInUse);
    }
    let ghost kept_peers = peers@.map_values(|p: RoomPeer| p@);
    peers.push(RoomPeer { nick: nick.to_owned(), conn });
    let meta = RoomMeta { allowed, peers };
    assert(meta@.peers =~= kept.peers.push(PeerView { nick: nick@, conn }));
    assert(meta@ =~= (MetaView {
        allowed: kept.allowed,
        peers: kept.peers.push(PeerView { nick: nick@, conn }),
    }));
    rooms.insert(room.to_owned(), meta);
    proof {
        if rooms_wf(old(rooms)@) {
            let m = meta@;
            if old(rooms)@.contains_key(room@) {
                lemma_filter_distinct(before.peers, |p: PeerView| !is_stale(p, nick@, closed@));
                assert forall|i: int| 0 <= i < kept.peers.len() implies before.allowed.contains(
                    #[trigger] kept.peers[i].nick,
                ) by {
                    lemma_filter_subset(before.peers, |p: PeerView| !is_stale(p, nick@, closed@), i);
                    let w = choose|w: int| 0 <= w < before.peers.len() && before.peers[w] == kept.peers[i];
                    assert(before.allowed.contains(before.peers[w].nick));
                }
            } else {
                assert(kept.peers.len() == 0) by {
                    reveal(Seq::filter);
                }
            }
            assert(distinct_nicks(m.peers)) by {
                assert forall|i: int, j: int|
                    0 <= i < m.peers.len() && 0 <= j < m.peers.len() && i != j implies (
                    #[trigger] m.peers[i]).nick != (#[trigger] m.peers[j]).nick by {
                    if i < kept.peers.len() && j < kept.peers.len() {
                        assert(m.peers[i] == kept.peers[i] && m.peers[j] == kept.peers[j]);
                    } else if i < kept.peers.len() {
                        assert(m.peers[i] == kept.peers[i]);
                    } else {
                        assert(m.peers[j] == kept.peers[j]);
                    }
                }
            }
            assert forall|i: int| 0 <= i < m.peers.len() implies m.allowed.contains(
                #[trigger] m.peers[i].nick,
            ) by {
                if i < kept.peers.len() {
                    assert(m.peers[i] == kept.peers[i]);
                }
            }
            assert forall|k: Seq<char>| #[trigger] rooms@.contains_key(k) implies meta_wf(
                rooms@[k]@,
            ) by {
                if k != room@ {
                    assert(old(rooms)@.contains_key(k));
                }
            }
        }
    }
    Ok(())
}

/// An open room admits only its own pair: when it does not allow the
/// nickname, or does not allow the friend's nickname, the connection is
/// refused with `AccessDenied` and the rooms stay exactly as they were.
pub proof fn lemma_room_refuses_strangers(
    before: Map<Seq<char>, RoomMeta>,
    after: Map<Seq<char>, RoomMeta>,
    room: Seq<char>,
    nick: Seq<char>,
    friend: Seq<char>,
    conn: u64,
    closed: Seq<u64>,
    r: Result<(), JoinError>,
)
    requires
        entered(before, after, room, nick, friend, conn, closed, r),
        before.contains_key(room),
        !before[room]@.allowed.contains(nick) || !before[room]@.allowed.contains(friend),
    ensures
        r == Err::<(), JoinError>(JoinError::AccessDenied),
        after == before,
{
}

/// How `leave_room` changes the rooms `before` into `after`: everyone named
/// `nick` leaves room `room`, which closes when nobody is left.
pub open spec fn left_room(
    before: Map<Seq<char>, RoomMeta>,
    after: Map<Seq<char>, RoomMeta>,
    room: Seq<char>,
    nick: Seq<char>,
) -> bool {
    &&& !before.contains_key(room) ==> after == before
    &&& before.contains_key(room) ==> {
        let rest = without_nick(before[room]@, nick);
        &&& rest.peers.len() == 0 ==> after == before.remove(room)
        &&& rest.peers.len() > 0 ==> {
            &&& after.dom() == before.dom()
            &&& after[room]@ == rest
            &&& forall|k: Seq<char>|
                k != room && #[trigger] before.contains_key(k) ==> after[k] == before[k]
        }
    }
}

/// Removes every connection of `nick` from room `room`, and closes the room
/// when nobody is left in it.
pub fn leave_room(rooms: &mut Rooms, room: &str, nick: &str)
    ensures
        left_room(old(rooms)@, final(rooms)@, room@, nick@),
        rooms_wf(old(rooms)@) ==> rooms_wf(final(rooms)@),
{
    let (allowed, left) = match rooms.get(room) {
        Some(meta) => ([meta.allowed[0].clone(), meta.allowed[1].clone()], drop_nick(&meta.peers, nick)),
        None => {
            return;
        },
    };
    let ghost lv = without_nick(old(rooms)@[room@]@, nick@);
    if left.len() == 0 {
        rooms.remove(room);
        assert(rooms_wf(old(rooms)@) ==> rooms_wf(rooms@)) by {
            if rooms_wf(old(rooms)@) {
                assert forall|k: Seq<char>| #[trigger] rooms@.contains_key(k) implies meta_wf(
                    rooms@[k]@,
                ) by {
                    assert(old(rooms)@.contains_key(k));
                }
            }
        }
    } else {
        let meta = RoomMeta { allowed, peers: left };
        assert(meta@.allowed =~= old(rooms)@[room@]@.allowed);
        assert(meta@ =~= lv);
        rooms.insert(room.to_owned(), meta);
        proof {
            if rooms_wf(old(rooms)@) {
                lemma_filter_keeps_wf(old(rooms)@[room@]@, |p: PeerView| p.nick != nick@);
                assert forall|k: Seq<char>| #[trigger] rooms@.contains_key(k) implies meta_wf(
                    rooms@[k]@,
                ) by {
                    if k != room@ {
                        assert(old(rooms)@.contains_key(k));
                    }
                }
            }
            assert(rooms@.dom() =~= old(rooms)@.dom());
        }
    }
}


/// The text sent to a client whose connection is refused.
pub open spec fn refusal_text(e: JoinError) -> Seq<char> {
    match e {
        JoinError::MissingFields => "nick, friend, and room key are all required."@,
        JoinError::SameNick => "Your nickname and your friend's nickname must be different."@,
        JoinError::AccessDenied => "Access denied: nickname or friend key does not match this room."@,
        JoinError::NickInUse => "This nickname is already connected in this room."@,
    }
}

impl JoinError {
    /// The text sent to the client whose connection is refused.
    pub fn message(&self) -> (r: String)
        ensures
            r@ == refusal_text(*self),
    {
        match self {
            JoinError::MissingFields => "nick, friend, and room key are all required.".to_owned(),
            JoinError::SameNick => "Your nickname and your friend's nickname must be different.".to_owned(),
            JoinError::AccessDenied => "Access denied: nickname or friend key does not match this room.".to_owned(),
            JoinError::NickInUse => "This nickname is already connected in this room.".to_owned(),
        }
    }
}

/// The id of the room that `nick` and `friend` share under `room_key`: the
/// trimmed key and the two lower-cased nicknames in order, joined by `::`.
pub open spec fn room_id_of(room_key: Seq<char>, nick: Seq<char>, friend: Seq<char>) -> Seq<char> {
    let a = lower_text(nick);
    let b = lower_text(friend);
    let lo = if text_le(a, b) { a } else { b };
    let hi = if text_le(a, b) { b } else { a };
    trimmed(room_key) + "::"@ + lo + "::"@ + hi
}

/// Both ends of a conversation land in the same room.
pub proof fn lemma_room_id_symmetric(room_key: Seq<char>, nick: Seq<char>, friend: Seq<char>)
    ensures
        room_id_of(room_key, nick, friend) == room_id_of(room_key, friend, nick),
{
    let a = lower_text(nick);
    let b = lower_text(friend);
    lemma_text_le_total(a, b);
    if text_le(a, b) && text_le(b, a) {
        lemma_text_le_antisymmetric(a, b);
    }
}

/// Room ids ignore the case of an ASCII nickname and white space around the
/// key: trimming the key again, or upper-casing the nickname, gives the same
/// room.
pub proof fn lemma_room_id_ignores_case(room_key: Seq<char>, nick: Seq<char>, friend: Seq<char>)
    requires
        is_ascii_text(nick),
    ensures
        room_id_of(trimmed(room_key), ascii_upper(nick), friend) == room_id_of(room_key, nick, friend),
{
    lemma_lower_of_upper(nick);
    lemma_trimmed_idempotent(room_key);
}

/// The id of the room that `nick` and `friend` share under `room_key`.
pub fn room_id(room_key: &str, nick: &str, friend: &str) -> (r: String)
    ensures
        r@ == room_id_of(room_key@, nick@, friend@),
{
    let a = to_lower(nick);
    let b = to_lower(friend);
    let first = text_before(a.as_str(), b.as_str());
    let (lo, hi) = if first {
        (a, b)
    } else {
        (b, a)
    };
    let mut r = trim(room_key);
    push_text(&mut r, "::");
    push_text(&mut r, lo.as_str());
    push_text(&mut r, "::");
    push_text(&mut r, hi.as_str());
    r
}

/// A connection request that passed the checks: trimmed nicknames and the room id.
pub struct Ticket {
    pub nick: String,
    pub friend: String,
    pub room: String,
}

/// Checks a connection request: the nicknames and the room key, trimmed, must
/// not be blank, and the two nicknames must differ.
pub fn check_params(params: &WsParams) -> (r: Result<Ticket, JoinError>)
    ensures
        ({
            let n = trimmed(params.nick@);
            let f = trimmed(params.friend@);
            let k = trimmed(params.room@);
            &&& (n.len() == 0 || f.len() == 0 || k.len() == 0) ==> r == Err::<Ticket, JoinError>(
                JoinError::MissingFields,
            )
            &&& !(n.len() == 0 || f.len() == 0 || k.len() == 0) && n == f ==> r == Err::<
                Ticket,
                JoinError,
            >(JoinError::SameNick)
            &&& !(n.len() == 0 || f.len() == 0 || k.len() == 0) && n != f ==> (r matches Ok(t) && t.nick@
                == n && t.friend@ == f && t.room@ == room_id_of(k, n, f))
        }),
{
    let nick = trim(params.nick.as_str());
    let friend = trim(params.friend.as_str());
    let raw_room = trim(params.room.as_str());
    if nick.as_str().is_empty() || friend.as_str().is_empty() || raw_room.as_str().is_empty() {
        return Err(JoinError::MissingFields);
    }
    if nick == friend {
        return Err(JoinError::SameNick);
    }
    let room = room_id(raw_room.as_str(), nick.as_str(), friend.as_str());
    Ok(Ticket { nick, friend, room })
}


/// The notice sent to a room when `nick` joins it.
pub fn joined_notice(nick: &str) -> (r: String)
    ensures
        r@ == nick@ + " joined"@,
{
    let mut r = nick.to_owned();
    push_text(&mut r, " joined");
    r
}

/// The notice sent to a room when `nick` leaves it.
pub fn left_notice(nick: &str) -> (r: String)
    ensures
        r@ == nick@ + " left"@,
{
    let mut r = nick.to_owned();
    push_text(&mut r, " left");
    r
}


/// Whoever leaves a room is gone from it: no peer of that name remains.
pub proof fn lemma_leave_removes_nick(m: MetaView, nick: Seq<char>)
    ensures
        !has_nick(without_nick(m, nick).peers, nick),
{
    let pred = |p: PeerView| p.nick != nick;
    let f = m.peers.filter(pred);
    assert forall|i: int| 0 <= i < f.len() implies (#[trigger] f[i]).nick != nick by {
        lemma_filter_subset(m.peers, pred, i);
    }
}


/// Entering a room that was not open and leaving it again closes it: the
/// rooms are as they were.
pub proof fn lemma_enter_then_leave(
    rooms: Map<Seq<char>, RoomMeta>,
    mid: Map<Seq<char>, RoomMeta>,
    after: Map<Seq<char>, RoomMeta>,
    room: Seq<char>,
    nick: Seq<char>,
    friend: Seq<char>,
    conn: u64,
    closed: Seq<u64>,
)
    requires
        !rooms.contains_key(room),
        entered(rooms, mid, room, nick, friend, conn, closed, Ok(())),
        left_room(mid, after, room, nick),
    ensures
        after == rooms,
{
    lemma_fresh_room_lets_pair_in(nick, friend);
    let m = fresh_meta(nick, friend);
    let kept = pruned(m, nick, closed);
    assert(kept.peers.len() == 0) by {
        reveal(Seq::filter);
    }
    let ps = kept.peers.push(PeerView { nick, conn });
    assert(mid[room]@.peers == ps);
    assert(ps =~= seq![PeerView { nick, conn }]);
    let pred = |p: PeerView| p.nick != nick;
    assert(ps.filter(pred).len() == 0) by {
        reveal_with_fuel(Seq::filter, 2);
        assert(ps.drop_last() =~= Seq::<PeerView>::empty());
        assert(ps.last() == PeerView { nick, conn });
    }
    assert(after =~= rooms);
}

} // verus!
