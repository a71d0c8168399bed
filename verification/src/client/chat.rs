//! How the client reacts to events from the relay, and how it finds the
//! user's own messages by number or id prefix.
use vstd::prelude::*;
use crate::json::{member_str, member_i64, member_bool, text_member, int_member, bool_member};
use crate::text::{same_text, usize_of_text, parse_usize, text_starts_with, decimal, lemma_decimal_parses};
use crate::client::types::{
    Msg, MsgView, Store, Order, Pending, ChatView, store_view, ids_view, chat_wf, first_index,
    shown_number, lemma_first_index, lemma_first_index_unique,
};

verus! {

/// What the client shows in answer to an event.
pub enum Show {
    Nothing,
    /// A message bubble, numbered `idx`.
    Bubble { idx: usize, nick: String, text: String, ts: i64, edited: bool },
    /// A notice from the relay.
    System { text: String },
    /// An error reported by the relay.
    Error { text: String },
}

/// What the client shows, as the contracts see it.
pub enum ShowView {
    Nothing,
    Bubble { idx: int, nick: Seq<char>, text: Seq<char>, ts: i64, edited: bool },
    System { text: Seq<char> },
    Error { text: Seq<char> },
}

impl View for Show {
    type V = ShowView;

    open spec fn view(&self) -> ShowView {
        match self {
            Show::Nothing => ShowView::Nothing,
            Show::Bubble { idx, nick, text, ts, edited } => ShowView::Bubble {
                idx: *idx as int,
                nick: nick@,
                text: text@,
                ts: *ts,
                edited: *edited,
            },
            Show::System { text } => ShowView::System { text: text@ },
            Show::Error { text } => ShowView::Error { text: text@ },
        }
    }
}

/// The client's state as the contracts see it.
pub open spec fn chat_view(store: &Store, order: &Order, pending: &Pending) -> ChatView {
    ChatView { store: store_view(store@), order: ids_view(order@), pending: ids_view(pending@) }
}

/// Stores `m` under its id, listing the id at the end when it is new; gives
/// the number shown for it.
pub open spec fn upsert_step(c: ChatView, m: MsgView) -> (ChatView, int) {
    let order = if c.store.contains_key(m.msg_id) {
        c.order
    } else {
        c.order.push(m.msg_id)
    };
    (
        ChatView { store: c.store.insert(m.msg_id, m), order, pending: c.pending },
        shown_number(order, m.msg_id),
    )
}

/// The message carried by a `msg` or `history` event.
pub open spec fn carried_msg(v: serde_json::Value) -> MsgView {
    MsgView {
        msg_id: text_member(v, "msg_id"@),
        nick: text_member(v, "nick"@),
        text: text_member(v, "text"@),
        ts: int_member(v, "timestamp"@),
        edited: bool_member(v, "edited"@),
    }
}

/// A bubble for message `m` numbered `idx`.
pub open spec fn bubble_of(idx: int, m: MsgView) -> ShowView {
    ShowView::Bubble { idx, nick: m.nick, text: m.text, ts: m.ts, edited: m.edited }
}

/// How the client's state changes on the relay event `v`, and what it shows.
///
/// - `ack`: the oldest pending local id is replaced, in the order and in the
///   store, by the id the relay gave, and the stored message takes the
///   relay's time.
/// - `history`: a message not stored yet is stored and shown.
/// - `msg`: the message is stored (or replaced) and shown.
/// - `edit`: a stored message takes the new text, is marked edited and shown.
/// - `delete`: a stored message is shown as deleted.
/// - `system`, `error`: the text is shown.
pub open spec fn chat_step(c: ChatView, v: serde_json::Value) -> (ChatView, ShowView) {
    let kind = text_member(v, "type"@);
    let id = text_member(v, "msg_id"@);
    if kind == "ack"@ {
        if c.pending.len() == 0 {
            (c, ShowView::Nothing)
        } else {
            let lid = c.pending[0];
            let order = if c.order.contains(lid) {
                c.order.update(first_index(c.order, lid), id)
            } else {
                c.order
            };
            let store = if c.store.contains_key(lid) {
                let m = c.store[lid];
                c.store.remove(lid).insert(
                    id,
                    MsgView {
                        msg_id: id,
                        nick: m.nick,
                        text: m.text,
                        ts: int_member(v, "timestamp"@),
                        edited: m.edited,
                    },
                )
            } else {
                c.store
            };
            (ChatView { store, order, pending: c.pending.drop_first() }, ShowView::Nothing)
        }
    } else if kind == "history"@ {
        let m = carried_msg(v);
        if c.store.contains_key(m.msg_id) {
            (c, ShowView::Nothing)
        } else {
            let (c2, idx) = upsert_step(c, m);
            (c2, bubble_of(idx, m))
        }
    } else if kind == "msg"@ {
        let m = carried_msg(v);
        let (c2, idx) = upsert_step(c, m);
        (c2, bubble_of(idx, m))
    } else if kind == "edit"@ {
        if c.store.contains_key(id) {
            let m = c.store[id];
            let m2 = MsgView {
                msg_id: m.msg_id,
                nick: m.nick,
                text: text_member(v, "text"@),
                ts: m.ts,
                edited: true,
            };
            (
                ChatView { store: c.store.insert(id, m2), order: c.order, pending: c.pending },
                bubble_of(shown_number(c.order, id), m2),
            )
        } else {
            (c, ShowView::Nothing)
        }
    } else if kind == "delete"@ {
        if c.store.contains_key(id) {
            let m = c.store[id];
            (
                c,
                ShowView::Bubble {
                    idx: shown_number(c.order, id),
                    nick: m.nick,
                    text: "[ deleted ]"@,
                    ts: m.ts,
                    edited: false,
                },
            )
        } else {
            (c, ShowView::Nothing)
        }
    } else if kind == "system"@ {
        (c, ShowView::System { text: text_member(v, "text"@) })
    } else if kind == "error"@ {
        (c, ShowView::Error { text: text_member(v, "text"@) })
    } else {
        (c, ShowView::Nothing)
    }
}

/// The event is not an acknowledgement that renames a pending message to an
/// id already stored under another name.
pub open spec fn ack_is_fresh(c: ChatView, v: serde_json::Value) -> bool {
    let id = text_member(v, "msg_id"@);
    !(text_member(v, "type"@) == "ack"@ && c.pending.len() > 0 && id != c.pending[0]
        && c.store.contains_key(id))
}

/// Where `id` first stands in `order`.
fn find_id(order: &[String], id: &str) -> (r: Option<usize>)
    ensures
        first_index(ids_view(order@), id@) >= 0 ==> r == Some(
            first_index(ids_view(order@), id@) as usize,
        ),
        first_index(ids_view(order@), id@) < 0 ==> r is None,
        r matches Some(i) ==> i < order@.len(),
        order@.len() <= usize::MAX,
{
    let ghost s = ids_view(order@);
    proof {
        lemma_first_index(s, id@);
    }
    let mut i: usize = 0;
    while i < order.len()
        invariant
            i <= order@.len(),
            s == ids_view(order@),
            forall|j: int| 0 <= j < i ==> s[j] != id@,
        decreases order@.len() - i,
    {
        assert(s[i as int] == order@[i as int]@);
        if same_text(order[i].as_str(), id) {
            proof {
                lemma_first_index(s, id@);
                assert(s.contains(id@));
                if first_index(s, id@) < i {
                    assert(s[first_index(s, id@)] == id@);
                }
            }
            return Some(i);
        }
        i = i + 1;
    }
    proof {
        lemma_first_index(s, id@);
        if first_index(s, id@) >= 0 {
            assert(s[first_index(s, id@)] == id@);
        }
    }
    None
}

/// The number shown for message `id`: its 1-based place in `order`, or 1 when
/// it is not listed.
pub fn pos(order: &[String], id: &str) -> (r: usize)
    ensures
        r == shown_number(ids_view(order@), id@),
{
    proof {
        lemma_first_index(ids_view(order@), id@);
    }
    match find_id(order, id) {
        Some(i) => i + 1,
        None => 1,
    }
}

/// Stores `m` under its id, listing the id at the end when it is new, and
/// gives the number shown for it.
pub fn upsert(store: &mut Store, order: &mut Order, m: Msg) -> (r: usize)
    ensures
        ({
            let c = ChatView { store: store_view(old(store)@), order: ids_view(old(order)@), pending: Seq::empty() };
            let (c2, idx) = upsert_step(c, m@);
            &&& store_view(final(store)@) == c2.store
            &&& ids_view(final(order)@) == c2.order
            &&& r == idx
        }),
        chat_wf(
            ChatView { store: store_view(old(store)@), order: ids_view(old(order)@), pending: Seq::empty() },
        ) ==> chat_wf(
            ChatView { store: store_view(final(store)@), order: ids_view(final(order)@), pending: Seq::empty() },
        ),
{
    let ghost c = ChatView { store: store_view(store@), order: ids_view(order@), pending: Seq::empty() };
    let id = m.msg_id.clone();
    let known = store.contains_key(id.as_str());
    if !known {
        order.push(id.clone());
        assert(ids_view(order@) =~= c.order.push(id@));
    }
    let idx = pos(order.as_slice(), id.as_str());
    store.insert(id, m);
    proof {
        assert(store_view(store@) =~= c.store.insert(m@.msg_id, m@));
        lemma_upsert_keeps_wf(c, m@);
    }
    idx
}

proof fn lemma_upsert_keeps_wf(c: ChatView, m: MsgView)
    ensures
        chat_wf(c) ==> chat_wf(upsert_step(c, m).0),
{
    if chat_wf(c) {
        let c2 = upsert_step(c, m).0;
        if !c.store.contains_key(m.msg_id) {
            assert(!c.order.contains(m.msg_id));
            assert forall|i: int, j: int|
                0 <= i < c2.order.len() && 0 <= j < c2.order.len() && i != j implies c2.order[i]
                != c2.order[j] by {
                if i == c.order.len() as int {
                    assert(c2.order[j] == c.order[j]);
                } else if j == c.order.len() as int {
                    assert(c2.order[i] == c.order[i]);
                } else {
                    assert(c2.order[i] == c.order[i] && c2.order[j] == c.order[j]);
                }
            }
            assert forall|k: Seq<char>| #[trigger] c2.store.contains_key(k) implies c2.order.contains(k) by {
                if k == m.msg_id {
                    assert(c2.order[c.order.len() as int] == k);
                } else {
                    let w = choose|w: int| 0 <= w < c.order.len() && c.order[w] == k;
                    assert(c2.order[w] == k);
                }
            }
        }
    }
}


/// The string member `key` of an event, or the empty string when it is
/// missing or not a string.
pub fn sv(val: &serde_json::Value, key: &str) -> (r: String)
    ensures
        r@ == text_member(*val, key@),
{
    match member_str(val, key) {
        Some(s) => s,
        None => String::new(),
    }
}

/// The message fields of an event: id, nickname, text, time (0 when absent)
/// and the edited flag (false when absent).
fn fields(val: &serde_json::Value) -> (r: (String, String, String, i64, bool))
    ensures
        r.0@ == carried_msg(*val).msg_id,
        r.1@ == carried_msg(*val).nick,
        r.2@ == carried_msg(*val).text,
        r.3 == carried_msg(*val).ts,
        r.4 == carried_msg(*val).edited,
{
    let ts = match member_i64(val, "timestamp") {
        Some(n) => n,
        None => 0,
    };
    let edited = match member_bool(val, "edited") {
        Some(b) => b,
        None => false,
    };
    (sv(val, "msg_id"), sv(val, "nick"), sv(val, "text"), ts, edited)
}

/// Stores and shows the message carried by `val`.
fn store_and_show(val: &serde_json::Value, store: &mut Store, order: &mut Order) -> (r: Show)
    ensures
        ({
            let c = ChatView { store: store_view(old(store)@), order: ids_view(old(order)@), pending: Seq::empty() };
            let (c2, idx) = upsert_step(c, carried_msg(*val));
            &&& store_view(final(store)@) == c2.store
            &&& ids_view(final(order)@) == c2.order
            &&& r@ == bubble_of(idx, carried_msg(*val))
        }),
{
    let (id, nick, text, ts, edited) = fields(val);
    let m = Msg { msg_id: id, nick: nick.clone(), text: text.clone(), ts, edited };
    assert(m@ == carried_msg(*val));
    let idx = upsert(store, order, m);
    Show::Bubble { idx, nick, text, ts, edited }
}

/// Reacts to the relay event `val`: updates the store, the order and the
/// pending acknowledgements, and says what to show.
pub fn handle_in(
    val: &serde_json::Value,
    me: &str,
    _friend: &str,
    store: &mut Store,
    order: &mut Order,
    pending: &mut Pending,
) -> (r: Show)
    ensures
        (chat_view(final(store), final(order), final(pending)), r@) == chat_step(
            chat_view(old(store), old(order), old(pending)),
            *val,
        ),
{
    let ghost c = chat_view(store, order, pending);
    let kind = sv(val, "type");
    let kind = kind.as_str();
    if same_text(kind, "ack") {
        let rid = sv(val, "msg_id");
        let rts = match member_i64(val, "timestamp") {
            Some(n) => n,
            None => 0,
        };
        if pending.len() == 0 {
            return Show::Nothing;
        }
        let lid = pending.remove(0);
        assert(ids_view(pending@) =~= c.pending.drop_first());
        assert(lid@ == c.pending[0]);
        proof {
            lemma_first_index(c.order, lid@);
        }
        match find_id(order.as_slice(), lid.as_str()) {
            Some(p) => {
                order.set(p, rid.clone());
                assert(ids_view(order@) =~= c.order.update(p as int, rid@));
            },
            None => {},
        }
        let renamed = match store.get(lid.as_str()) {
            Some(m) => Some(
                Msg {
                    msg_id: rid.clone(),
                    nick: m.nick.clone(),
                    text: m.text.clone(),
                    ts: rts,
                    edited: m.edited,
                },
            ),
            None => None,
        };
        match renamed {
            Some(m) => {
                store.remove(lid.as_str());
                store.insert(rid, m);
                assert(store_view(store@) =~= c.store.remove(lid@).insert(rid@, m@));
            },
            None => {},
        }
        return Show::Nothing;
    } else if same_text(kind, "history") {
        let id = sv(val, "msg_id");
        if store.contains_key(id.as_str()) {
            return Show::Nothing;
        }
        return store_and_show(val, store, order);
    } else if same_text(kind, "msg") {
        return store_and_show(val, store, order);
    } else if same_text(kind, "edit") {
        let id = sv(val, "msg_id");
        let txt = sv(val, "text");
        let changed = match store.get(id.as_str()) {
            Some(m) => Some(
                Msg {
                    msg_id: m.msg_id.clone(),
                    nick: m.nick.clone(),
                    text: txt.clone(),
                    ts: m.ts,
                    edited: true,
                },
            ),
            None => None,
        };
        match changed {
            Some(m) => {
                let i = pos(order.as_slice(), id.as_str());
                let nick = m.nick.clone();
                let ts = m.ts;
                let ghost mv = m@;
                store.insert(id, m);
                assert(store_view(store@) =~= c.store.insert(text_member(*val, "msg_id"@), mv));
                return Show::Bubble { idx: i, nick, text: txt, ts, edited: true };
            },
            None => {
                return Show::Nothing;
            },
        }
    } else if same_text(kind, "delete") {
        let id = sv(val, "msg_id");
        match store.get(id.as_str()) {
            Some(m) => {
                let i = pos(order.as_slice(), id.as_str());
                return Show::Bubble {
                    idx: i,
                    nick: m.nick.clone(),
                    text: "[ deleted ]".to_owned(),
                    ts: m.ts,
                    edited: false,
                };
            },
            None => {
                return Show::Nothing;
            },
        }
    } else if same_text(kind, "system") {
        return Show::System { text: sv(val, "text") };
    } else if same_text(kind, "error") {
        return Show::Error { text: sv(val, "text") };
    }
    Show::Nothing
}


/// Every event keeps the store and the order in agreement, except an
/// acknowledgement that renames a pending message to an id already stored.
pub proof fn lemma_chat_step_keeps_wf(c: ChatView, v: serde_json::Value)
    requires
        chat_wf(c),
        ack_is_fresh(c, v),
    ensures
        chat_wf(chat_step(c, v).0),
{
    let kind = text_member(v, "type"@);
    let id = text_member(v, "msg_id"@);
    let c2 = chat_step(c, v).0;
    if kind == "ack"@ {
        if c.pending.len() > 0 {
            let lid = c.pending[0];
            lemma_first_index(c.order, lid);
            if c.store.contains_key(lid) {
                assert(c.order.contains(lid));
                let p = first_index(c.order, lid);
                assert forall|i: int, j: int|
                    0 <= i < c2.order.len() && 0 <= j < c2.order.len() && i != j implies c2.order[i]
                    != c2.order[j] by {
                    if i == p {
                        if id != lid {
                            assert(!c.order.contains(id));
                        }
                    } else if j == p {
                        if id != lid {
                            assert(!c.order.contains(id));
                        }
                    }
                }
                assert forall|i: int| 0 <= i < c2.order.len() implies c2.store.contains_key(
                    #[trigger] c2.order[i],
                ) by {
                    if i != p {
                        assert(c2.order[i] == c.order[i]);
                        assert(c.order[i] != lid);
                    }
                }
                assert forall|k: Seq<char>| #[trigger] c2.store.contains_key(k) implies c2.order.contains(k) by {
                    if k == id {
                        assert(c2.order[p] == id);
                    } else {
                        let w = choose|w: int| 0 <= w < c.order.len() && c.order[w] == k;
                        assert(w != p);
                        assert(c2.order[w] == k);
                    }
                }
            } else {
                assert(!c.order.contains(lid));
            }
        }
    } else if kind == "history"@ || kind == "msg"@ {
        let m = carried_msg(v);
        lemma_upsert_keeps_wf(c, m);
        let u = upsert_step(c, m).0;
        assert forall|k: Seq<char>| #[trigger] u.store.contains_key(k) implies u.store[k].msg_id == k by {
            if k != m.msg_id {
                assert(c.store.contains_key(k));
            }
        }
    } else if kind == "edit"@ {
        if c.store.contains_key(id) {
            assert forall|k: Seq<char>| #[trigger] c2.store.contains_key(k) implies c2.order.contains(k) by {
                assert(c.store.contains_key(k));
            }
        }
    }
}

/// An acknowledgement keeps the acknowledged message in its place: it is
/// shown under the same number with its new id.
pub proof fn lemma_ack_keeps_place(c: ChatView, v: serde_json::Value)
    requires
        chat_wf(c),
        ack_is_fresh(c, v),
        text_member(v, "type"@) == "ack"@,
        c.pending.len() > 0,
        c.store.contains_key(c.pending[0]),
    ensures
        chat_step(c, v).0.store.contains_key(text_member(v, "msg_id"@)),
        !chat_step(c, v).0.store.contains_key(c.pending[0]) || text_member(v, "msg_id"@)
            == c.pending[0],
        shown_number(chat_step(c, v).0.order, text_member(v, "msg_id"@)) == shown_number(
            c.order,
            c.pending[0],
        ),
{
    lemma_chat_step_keeps_wf(c, v);
    let lid = c.pending[0];
    let c2 = chat_step(c, v).0;
    lemma_first_index(c.order, lid);
    let p = first_index(c.order, lid);
    lemma_first_index_unique(c2.order, p);
}

/// An acknowledgement settles the oldest pending message: exactly that local
/// id leaves the pending queue (the others keep their order), its first place
/// in the order now holds the relay's id (every other place is unchanged), and
/// the stored message moves to the relay's id with the relay's time, keeping
/// its author and text. Nothing is shown.
pub proof fn lemma_ack_renames_oldest(c: ChatView, v: serde_json::Value)
    requires
        text_member(v, "type"@) == "ack"@,
        c.pending.len() > 0,
    ensures
        ({
            let (c2, shown) = chat_step(c, v);
            let lid = c.pending[0];
            let rid = text_member(v, "msg_id"@);
            &&& c2.pending == c.pending.subrange(1, c.pending.len() as int)
            &&& shown == ShowView::Nothing
            &&& c2.order.len() == c.order.len()
            &&& c.order.contains(lid) ==> {
                let p = first_index(c.order, lid);
                &&& 0 <= p < c.order.len() && c.order[p] == lid
                &&& forall|j: int| 0 <= j < p ==> c.order[j] != lid
                &&& c2.order[p] == rid
                &&& forall|j: int| 0 <= j < c.order.len() && j != p ==> c2.order[j] == c.order[j]
            }
            &&& !c.order.contains(lid) ==> c2.order == c.order
            &&& c.store.contains_key(lid) ==> {
                &&& c2.store.contains_key(rid)
                &&& c2.store[rid].msg_id == rid
                &&& c2.store[rid].nick == c.store[lid].nick
                &&& c2.store[rid].text == c.store[lid].text
                &&& c2.store[rid].ts == int_member(v, "timestamp"@)
                &&& rid != lid ==> !c2.store.contains_key(lid)
                &&& forall|k: Seq<char>| k != lid && k != rid ==> (c2.store.contains_key(k)
                    == c.store.contains_key(k))
            }
        }),
{
    let lid = c.pending[0];
    lemma_first_index(c.order, lid);
    assert(c.pending.drop_first() =~= c.pending.subrange(1, c.pending.len() as int));
}

/// A new message is stored under its id, and the bubble shown for it carries
/// its place in the order.
pub proof fn lemma_msg_is_stored(c: ChatView, v: serde_json::Value)
    requires
        chat_wf(c),
        text_member(v, "type"@) == "msg"@,
    ensures
        chat_step(c, v).0.store.contains_key(carried_msg(v).msg_id),
        chat_step(c, v).0.store[carried_msg(v).msg_id] == carried_msg(v),
        chat_step(c, v).0.order[shown_number(chat_step(c, v).0.order, carried_msg(v).msg_id) - 1]
            == carried_msg(v).msg_id,
{
    reveal_strlit("msg");
    reveal_strlit("ack");
    reveal_strlit("history");
    assert("msg"@[0] != "ack"@[0] && "msg"@[0] != "history"@[0]);
    let m = carried_msg(v);
    let c2 = chat_step(c, v).0;
    assert(c2.order.contains(m.msg_id)) by {
        if !c.store.contains_key(m.msg_id) {
            assert(c2.order[c.order.len() as int] == m.msg_id);
        }
    }
    lemma_first_index(c2.order, m.msg_id);
}

/// An edit of a stored message changes its text and marks it edited, and
/// nothing else.
pub proof fn lemma_edit_changes_text(c: ChatView, v: serde_json::Value)
    requires
        text_member(v, "type"@) == "edit"@,
        c.store.contains_key(text_member(v, "msg_id"@)),
    ensures
        ({
            let id = text_member(v, "msg_id"@);
            let m2 = chat_step(c, v).0.store[id];
            &&& m2.text == text_member(v, "text"@)
            &&& m2.edited
            &&& m2.nick == c.store[id].nick
            &&& m2.ts == c.store[id].ts
            &&& chat_step(c, v).0.order == c.order
            &&& chat_step(c, v).0.store.dom() == c.store.dom()
        }),
{
    reveal_strlit("edit");
    reveal_strlit("msg");
    reveal_strlit("ack");
    reveal_strlit("history");
    assert("edit"@[0] != "ack"@[0] && "edit"@[0] != "history"@[0] && "edit"@[0] != "msg"@[0]);
    let id = text_member(v, "msg_id"@);
    assert(chat_step(c, v).0.store.dom() =~= c.store.dom());
}


/// Message `id` is stored and was written by `nick`.
pub open spec fn written_by(store: Map<Seq<char>, MsgView>, id: Seq<char>, nick: Seq<char>) -> bool {
    store.contains_key(id) && store[id].nick == nick
}

/// The listed ids that begin with `input`.
pub open spec fn prefix_hits(order: Seq<Seq<char>>, input: Seq<char>) -> Seq<Seq<char>> {
    order.filter(|id: Seq<char>| input.is_prefix_of(id))
}

/// The user's message that `input` names: a number `N` names message `#N`;
/// anything else names the one listed id it is a prefix of. Only a message
/// written by `nick` is given.
pub open spec fn mine_of(
    input: Seq<char>,
    order: Seq<Seq<char>>,
    store: Map<Seq<char>, MsgView>,
    nick: Seq<char>,
) -> Option<Seq<char>> {
    match usize_of_text(input) {
        Some(n) => if 1 <= n <= order.len() && written_by(store, order[n - 1], nick) {
            Some(order[n - 1])
        } else {
            None
        },
        None => {
            let hits = prefix_hits(order, input);
            if hits.len() == 1 && written_by(store, hits[0], nick) {
                Some(hits[0])
            } else {
                None
            }
        },
    }
}

/// The listed ids that begin with `input`.
fn hits_of(order: &Order, input: &str) -> (r: Vec<String>)
    ensures
        ids_view(r@) == prefix_hits(ids_view(order@), input@),
{
    let ghost src = ids_view(order@);
    let ghost pred = |id: Seq<char>| input@.is_prefix_of(id);
    let mut r: Vec<String> = Vec::new();
    let mut i: usize = 0;
    while i < order.len()
        invariant
            i <= order@.len(),
            src == ids_view(order@),
            pred == (|id: Seq<char>| input@.is_prefix_of(id)),
            ids_view(r@) == src.take(i as int).filter(pred),
        decreases order@.len() - i,
    {
        let hit = text_starts_with(order[i].as_str(), input);
        let ghost before = ids_view(r@);
        proof {
            assert(src[i as int] == order@[i as int]@);
            assert(src.take(i + 1) =~= src.take(i as int).push(src[i as int]));
            src.take(i as int).lemma_filter_push(src[i as int], pred);
        }
        if hit {
            r.push(order[i].clone());
            assert(ids_view(r@) =~= before.push(src[i as int]));
        }
        i = i + 1;
    }
    assert(src.take(order@.len() as int) =~= src);
    r
}

/// Whether message `id` is stored and written by `nick`.
fn is_written_by(store: &Store, id: &str, nick: &str) -> (r: bool)
    ensures
        r == written_by(store_view(store@), id@, nick@),
{
    match store.get(id) {
        Some(m) => same_text(m.nick.as_str(), nick),
        None => false,
    }
}

/// The id of the user's own message that `input` names (`#N` by number, or
/// an id prefix naming exactly one message), if `nick` wrote it.
pub fn mine(input: &str, order: &Order, store: &Store, nick: &str) -> (r: Option<String>)
    ensures
        match r {
            Some(id) => mine_of(input@, ids_view(order@), store_view(store@), nick@) == Some(id@),
            None => mine_of(input@, ids_view(order@), store_view(store@), nick@) is None,
        },
        r matches Some(id) ==> ids_view(order@).contains(id@) && written_by(
            store_view(store@),
            id@,
            nick@,
        ),
{
    let ghost o = ids_view(order@);
    match parse_usize(input) {
        Some(n) => {
            if n >= 1 && n <= order.len() {
                let id = &order[n - 1];
                assert(o[n - 1] == id@);
                if is_written_by(store, id.as_str(), nick) {
                    return Some(id.clone());
                }
            }
            return None;
        },
        None => {},
    }
    let hits = hits_of(order, input);
    if hits.len() == 1 {
        let ghost h = prefix_hits(o, input@);
        assert(h[0] == hits@[0]@);
        if is_written_by(store, hits[0].as_str(), nick) {
            proof {
                let pred = |id: Seq<char>| input@.is_prefix_of(id);
                assert(o.filter(pred).contains(h[0]));
                o.lemma_filter_contains_rev(pred, h[0]);
            }
            return Some(hits[0].clone());
        }
    }
    None
}

/// The number shown on a message's bubble selects it: once `upsert` has
/// stored a message written by `nick`, the decimal numeral of the number it
/// gave names that message for `mine`.
pub proof fn lemma_shown_number_selects(c: ChatView, m: MsgView, nick: Seq<char>)
    requires
        chat_wf(c),
        m.nick == nick,
        upsert_step(c, m).0.order.len() <= usize::MAX,
    ensures
        ({
            let (c2, idx) = upsert_step(c, m);
            &&& 1 <= idx <= c2.order.len()
            &&& mine_of(decimal(idx as nat), c2.order, c2.store, nick) == Some(m.msg_id)
        }),
{
    let (c2, idx) = upsert_step(c, m);
    if c.store.contains_key(m.msg_id) {
        assert(c.order.contains(m.msg_id));
    } else {
        assert(c2.order[c.order.len() as int] == m.msg_id);
    }
    assert(c2.order.contains(m.msg_id));
    lemma_first_index(c2.order, m.msg_id);
    lemma_decimal_parses(idx as nat);
    assert(written_by(c2.store, m.msg_id, nick));
}

proof fn lemma_filter_none(s: Seq<Seq<char>>, pred: spec_fn(Seq<char>) -> bool)
    requires
        forall|k: int| 0 <= k < s.len() ==> !pred(#[trigger] s[k]),
    ensures
        s.filter(pred).len() == 0,
    decreases s.len(),
{
    reveal(Seq::filter);
    if s.len() > 0 {
        let d = s.drop_last();
        assert forall|k: int| 0 <= k < d.len() implies !pred(#[trigger] d[k]) by {
            assert(d[k] == s[k]);
        }
        lemma_filter_none(d, pred);
        assert(!pred(s[s.len() - 1]));
    }
}

proof fn lemma_filter_one(s: Seq<Seq<char>>, pred: spec_fn(Seq<char>) -> bool, i: int)
    requires
        0 <= i < s.len(),
        pred(s[i]),
        forall|k: int| 0 <= k < s.len() && k != i ==> !pred(#[trigger] s[k]),
    ensures
        s.filter(pred) == seq![s[i]],
    decreases s.len(),
{
    reveal(Seq::filter);
    let d = s.drop_last();
    if i == s.len() - 1 {
        assert forall|k: int| 0 <= k < d.len() implies !pred(#[trigger] d[k]) by {
            assert(d[k] == s[k]);
        }
        lemma_filter_none(d, pred);
        assert(s.filter(pred) =~= seq![s[i]]);
    } else {
        assert forall|k: int| 0 <= k < d.len() && k != i implies !pred(#[trigger] d[k]) by {
            assert(d[k] == s[k]);
        }
        assert(d[i] == s[i]);
        lemma_filter_one(d, pred, i);
        assert(!pred(s[s.len() - 1]));
    }
}

proof fn lemma_filter_some(s: Seq<Seq<char>>, pred: spec_fn(Seq<char>) -> bool, i: int)
    requires
        0 <= i < s.len(),
        pred(s[i]),
    ensures
        s.filter(pred).len() >= 1,
    decreases s.len(),
{
    reveal(Seq::filter);
    let d = s.drop_last();
    if i < s.len() - 1 {
        assert(d[i] == s[i]);
        lemma_filter_some(d, pred, i);
    }
}

proof fn lemma_filter_two(s: Seq<Seq<char>>, pred: spec_fn(Seq<char>) -> bool, i: int, j: int)
    requires
        0 <= i < j < s.len(),
        pred(s[i]),
        pred(s[j]),
    ensures
        s.filter(pred).len() >= 2,
    decreases s.len(),
{
    reveal(Seq::filter);
    let d = s.drop_last();
    assert(d[i] == s[i]);
    if j == s.len() - 1 {
        lemma_filter_some(d, pred, i);
    } else {
        assert(d[j] == s[j]);
        lemma_filter_two(d, pred, i, j);
    }
}

/// An id prefix that is not a number selects a message only when it is
/// unambiguous: when two listed ids begin with it, nothing is selected; when
/// exactly one does, that message is selected if `nick` wrote it.
pub proof fn lemma_prefix_must_be_unique(
    input: Seq<char>,
    order: Seq<Seq<char>>,
    store: Map<Seq<char>, MsgView>,
    nick: Seq<char>,
)
    requires
        usize_of_text(input) is None,
    ensures
        (exists|i: int, j: int|
            0 <= i < j < order.len() && input.is_prefix_of(#[trigger] order[i])
                && input.is_prefix_of(#[trigger] order[j])) ==> mine_of(input, order, store, nick)
            is None,
        forall|i: int|
            0 <= i < order.len() && input.is_prefix_of(#[trigger] order[i]) && (forall|k: int|
                0 <= k < order.len() && k != i ==> !input.is_prefix_of(#[trigger] order[k]))
                ==> mine_of(input, order, store, nick) == if written_by(store, order[i], nick) {
                Some(order[i])
            } else {
                None::<Seq<char>>
            },
{
    let pred = |id: Seq<char>| input.is_prefix_of(id);
    if exists|i: int, j: int|
        0 <= i < j < order.len() && input.is_prefix_of(#[trigger] order[i]) && input.is_prefix_of(
            #[trigger] order[j],
        ) {
        let (i, j) = choose|i: int, j: int|
            0 <= i < j < order.len() && input.is_prefix_of(#[trigger] order[i])
                && input.is_prefix_of(#[trigger] order[j]);
        lemma_filter_two(order, pred, i, j);
    }
    assert forall|i: int|
        0 <= i < order.len() && input.is_prefix_of(#[trigger] order[i]) && (forall|k: int|
            0 <= k < order.len() && k != i ==> !input.is_prefix_of(#[trigger] order[k]))
        implies mine_of(input, order, store, nick) == if written_by(store, order[i], nick) {
        Some(order[i])
    } else {
        None::<Seq<char>>
    } by {
        assert forall|k: int| 0 <= k < order.len() && k != i implies !pred(#[trigger] order[k]) by {}
        lemma_filter_one(order, pred, i);
    }
}

} // verus!
