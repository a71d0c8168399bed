//! The client's message store.
use vstd::prelude::*;
use vstd::hash_map::StringHashMap;

verus! {

/// A chat message as the client keeps it.
#[derive(Clone)]
pub struct Msg {
    pub msg_id: String,
    pub nick: String,
    pub text: String,
    pub ts: i64,
    pub edited: bool,
}

/// A message as the contracts see it.
pub struct MsgView {
    pub msg_id: Seq<char>,
    pub nick: Seq<char>,
    pub text: Seq<char>,
    pub ts: i64,
    pub edited: bool,
}

impl View for Msg {
    type V = MsgView;

    open spec fn view(&self) -> MsgView {
        MsgView {
            msg_id: self.msg_id@,
            nick: self.nick@,
            text: self.text@,
            ts: self.ts,
            edited: self.edited,
        }
    }
}

/// Messages by id.
pub type Store = StringHashMap<Msg>;

/// Message ids in the order they are shown; message `#N` is `order[N - 1]`.
pub type Order = Vec<String>;

/// Local ids of sent messages that the relay has not acknowledged yet, oldest first.
pub type Pending = Vec<String>;

/// The store as the contracts see it.
pub open spec fn store_view(store: Map<Seq<char>, Msg>) -> Map<Seq<char>, MsgView> {
    store.map_values(|m: Msg| m@)
}

/// A list of ids as the contracts see it.
pub open spec fn ids_view(ids: Seq<String>) -> Seq<Seq<char>> {
    ids.map_values(|s: String| s@)
}

/// The client's state as the contracts see it.
pub struct ChatView {
    pub store: Map<Seq<char>, MsgView>,
    pub order: Seq<Seq<char>>,
    pub pending: Seq<Seq<char>>,
}

/// The store and the order agree: every stored message is listed once, only
/// stored messages are listed, and each is stored under its own id.
pub open spec fn chat_wf(c: ChatView) -> bool {
    &&& c.order.no_duplicates()
    &&& forall|i: int| 0 <= i < c.order.len() ==> c.store.contains_key(#[trigger] c.order[i])
    &&& forall|k: Seq<char>| #[trigger] c.store.contains_key(k) ==> c.order.contains(k)
    &&& forall|k: Seq<char>| #[trigger] c.store.contains_key(k) ==> c.store[k].msg_id == k
}

/// Where `x` first stands in `s`, or -1.
pub open spec fn first_index(s: Seq<Seq<char>>, x: Seq<char>) -> int
    decreases s.len(),
{
    if s.len() == 0 {
        -1
    } else if s[0] == x {
        0
    } else {
        let k = first_index(s.drop_first(), x);
        if k < 0 {
            -1
        } else {
            k + 1
        }
    }
}

/// The number shown for message `x`: its 1-based place in `s`, or 1 when it
/// is not listed.
pub open spec fn shown_number(s: Seq<Seq<char>>, x: Seq<char>) -> int {
    if first_index(s, x) >= 0 {
        first_index(s, x) + 1
    } else {
        1
    }
}

/// `first_index` is the first place of `x`, and -1 exactly when `x` is absent.
pub proof fn lemma_first_index(s: Seq<Seq<char>>, x: Seq<char>)
    ensures
        -1 <= first_index(s, x) < s.len(),
        first_index(s, x) >= 0 <==> s.contains(x),
        first_index(s, x) >= 0 ==> s[first_index(s, x)] == x,
        forall|j: int| 0 <= j < first_index(s, x) ==> s[j] != x,
    decreases s.len(),
{
    if s.len() > 0 {
        lemma_first_index(s.drop_first(), x);
        if s[0] != x {
            if s.contains(x) {
                let w = choose|w: int| 0 <= w < s.len() && s[w] == x;
                assert(s.drop_first()[w - 1] == x);
            }
            let k = first_index(s.drop_first(), x);
            assert forall|j: int| 0 <= j < first_index(s, x) implies s[j] != x by {
                if j > 0 {
                    assert(s[j] == s.drop_first()[j - 1]);
                }
            }
        }
    }
}

/// In a list without repeats, the first place of an element is its place.
pub proof fn lemma_first_index_unique(s: Seq<Seq<char>>, i: int)
    requires
        s.no_duplicates(),
        0 <= i < s.len(),
    ensures
        first_index(s, s[i]) == i,
{
    lemma_first_index(s, s[i]);
}

} // verus!
