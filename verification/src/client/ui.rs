//! Rendering: message bubbles, notices and the history list.
use vstd::prelude::*;
use crate::text::{byte_len, utf8_len, push_text, repeat_char, decimal, decimal_text, same_text};
use crate::client::colors::{R, CY, DG, W, Y, RE};
use crate::client::utils::{wrap_lines, wraptext, ftime};
use crate::clock::is_clock_label;
use crate::client::types::{Msg, MsgView, Store, Order, store_view, ids_view, chat_wf, ChatView};
use crate::client::chat::{Show, ShowView, bubble_of};

verus! {

/// `a - b`, or 0 when `b` is larger (`usize::saturating_sub`).
pub open spec fn sat_sub(a: int, b: int) -> int {
    if a > b {
        a - b
    } else {
        0
    }
}

/// `c` repeated `n` times.
pub open spec fn rep(c: char, n: int) -> Seq<char> {
    Seq::new(n as nat, |_i: int| c)
}

/// The largest byte length among `lines`, or 0 when there are none.
pub open spec fn widest(lines: Seq<Seq<char>>) -> int
    decreases lines.len(),
{
    if lines.len() == 0 {
        0
    } else {
        let w = widest(lines.drop_last());
        let l = byte_len(lines.last()) as int;
        if l > w {
            l
        } else {
            w
        }
    }
}

/// The inner width of a bubble: the widest line, at least wide enough for
/// the header, at most 40.
pub open spec fn bubble_inner(lines: Seq<Seq<char>>, nick: Seq<char>, time: Seq<char>) -> int {
    let min_inner = byte_len(nick) + byte_len(time) + 4int;
    let w = if widest(lines) > min_inner {
        widest(lines)
    } else {
        min_inner
    };
    if w < 40 {
        w
    } else {
        40
    }
}

/// The colour of a message's text: white for the user's own, yellow otherwise.
pub open spec fn text_color(nick: Seq<char>, me: Seq<char>) -> Seq<char> {
    if nick == me {
        W@
    } else {
        Y@
    }
}

/// The header line of a bubble of width `bw`.
pub open spec fn bubble_header(nick: Seq<char>, time: Seq<char>, color: Seq<char>, bw: int) -> Seq<
    char,
> {
    let head_text_len = 2 + byte_len(nick) + 2 + byte_len(time) + 1int;
    DG@ + "┌─ "@ + color + nick + DG@ + "  "@ + time + rep('─', sat_sub(bw, head_text_len + 2))
        + DG@ + "─┐"@ + R@
}

/// A body line of a bubble of inner width `inner`.
pub open spec fn bubble_body(l: Seq<char>, color: Seq<char>, inner: int) -> Seq<char> {
    DG@ + "│"@ + R@ + " "@ + color + l + R@ + rep(' ', sat_sub(inner, byte_len(l) as int)) + " "@
        + DG@ + "│"@ + R@
}

/// The "edited" line of a bubble of inner width `inner`.
pub open spec fn bubble_edited(inner: int) -> Seq<char> {
    DG@ + "│"@ + R@ + " "@ + DG@ + "✎ edited"@ + R@ + rep(' ', sat_sub(inner, 8)) + " "@ + DG@
        + "│"@ + R@
}

/// The footer line of a bubble numbered `idx`, of width `bw`.
pub open spec fn bubble_footer(idx: nat, bw: int) -> Seq<char> {
    let itag = "["@ + decimal(idx) + "]"@;
    DG@ + "└"@ + rep('─', sat_sub(bw, byte_len(itag) + 4int)) + itag + "──┘"@ + R@
}

/// The lines of a message bubble, each indented: the user's own messages
/// sit at the right edge of a terminal `tw` columns wide, others at the left.
pub open spec fn bubble_spec(
    idx: nat,
    nick: Seq<char>,
    text: Seq<char>,
    time: Seq<char>,
    edited: bool,
    me: Seq<char>,
    tw: int,
) -> Seq<Seq<char>> {
    let lines = wrap_lines(text, 40);
    let color = text_color(nick, me);
    let inner = bubble_inner(lines, nick, time);
    let bw = inner + 4;
    let pad = rep(' ', if nick == me { sat_sub(tw, bw) } else { 2 });
    seq![pad + bubble_header(nick, time, color, bw)] + lines.map_values(
        |l: Seq<char>| pad + bubble_body(l, color, inner),
    ) + (if edited {
        seq![pad + bubble_edited(inner)]
    } else {
        Seq::empty()
    }) + seq![pad + bubble_footer(idx, bw)]
}


fn sat_sub_exec(a: u128, b: u128) -> (r: u128)
    ensures
        r == sat_sub(a as int, b as int),
{
    if a > b {
        a - b
    } else {
        0
    }
}

fn header_line(nick: &str, time: &str, color: &str, bw: usize) -> (r: String)
    ensures
        r@ == bubble_header(nick@, time@, color@, bw as int),
{
    let head_text_len: u128 = 2 + (utf8_len(nick) as u128) + 2 + (utf8_len(time) as u128) + 1;
    let dashes = sat_sub_exec(bw as u128, head_text_len + 2) as usize;
    let mut r = DG.to_owned();
    push_text(&mut r, "┌─ ");
    push_text(&mut r, color);
    push_text(&mut r, nick);
    push_text(&mut r, DG);
    push_text(&mut r, "  ");
    push_text(&mut r, time);
    let d = repeat_char('─', dashes);
    push_text(&mut r, d.as_str());
    push_text(&mut r, DG);
    push_text(&mut r, "─┐");
    push_text(&mut r, R);
    r
}

fn body_line(l: &str, color: &str, inner: usize) -> (r: String)
    ensures
        r@ == bubble_body(l@, color@, inner as int),
{
    let pad = sat_sub_exec(inner as u128, utf8_len(l) as u128) as usize;
    let mut r = DG.to_owned();
    push_text(&mut r, "│");
    push_text(&mut r, R);
    push_text(&mut r, " ");
    push_text(&mut r, color);
    push_text(&mut r, l);
    push_text(&mut r, R);
    let sp = repeat_char(' ', pad);
    push_text(&mut r, sp.as_str());
    push_text(&mut r, " ");
    push_text(&mut r, DG);
    push_text(&mut r, "│");
    push_text(&mut r, R);
    r
}

fn edited_line(inner: usize) -> (r: String)
    ensures
        r@ == bubble_edited(inner as int),
{
    let pad = sat_sub_exec(inner as u128, 8) as usize;
    let mut r = DG.to_owned();
    push_text(&mut r, "│");
    push_text(&mut r, R);
    push_text(&mut r, " ");
    push_text(&mut r, DG);
    push_text(&mut r, "✎ edited");
    push_text(&mut r, R);
    let sp = repeat_char(' ', pad);
    push_text(&mut r, sp.as_str());
    push_text(&mut r, " ");
    push_text(&mut r, DG);
    push_text(&mut r, "│");
    push_text(&mut r, R);
    r
}

fn footer_line(idx: usize, bw: usize) -> (r: String)
    ensures
        r@ == bubble_footer(idx as nat, bw as int),
{
    let mut itag = "[".to_owned();
    let num = decimal_text(idx);
    push_text(&mut itag, num.as_str());
    push_text(&mut itag, "]");
    let dashes = sat_sub_exec(bw as u128, (utf8_len(itag.as_str()) as u128) + 4) as usize;
    let mut r = DG.to_owned();
    push_text(&mut r, "└");
    let d = repeat_char('─', dashes);
    push_text(&mut r, d.as_str());
    push_text(&mut r, itag.as_str());
    push_text(&mut r, "──┘");
    push_text(&mut r, R);
    r
}

fn indented(pad: &String, line: String) -> (r: String)
    ensures
        r@ == pad@ + line@,
{
    let mut r = pad.clone();
    push_text(&mut r, line.as_str());
    r
}

/// The lines of the bubble for message `idx` by `nick`, with text `text`,
/// time label `time`, for the user `me` on a terminal `tw` columns wide.
pub fn bubble_lines(
    idx: usize,
    nick: &str,
    text: &str,
    time: &str,
    edited: bool,
    me: &str,
    tw: usize,
) -> (r: Vec<String>)
    ensures
        r@.map_values(|l: String| l@) == bubble_spec(idx as nat, nick@, text@, time@, edited, me@, tw as int),
{
    let is_mine = same_text(nick, me);
    let color: &str = if is_mine {
        W
    } else {
        Y
    };
    let lines = wraptext(text, 40);
    let ghost lv = lines@.map_values(|l: String| l@);
    let min_inner: u128 = (utf8_len(nick) as u128) + (utf8_len(time) as u128) + 4;
    let mut wide: u128 = 0;
    let mut i: usize = 0;
    assert(lv.take(0) =~= Seq::<Seq<char>>::empty());
    while i < lines.len()
        invariant
            i <= lines@.len(),
            lv == lines@.map_values(|l: String| l@),
            wide == widest(lv.take(i as int)),
        decreases lines@.len() - i,
    {
        let l = utf8_len(lines[i].as_str()) as u128;
        assert(lv.take(i + 1).drop_last() =~= lv.take(i as int));
        assert(lv.take(i + 1).last() == lines@[i as int]@);
        if l > wide {
            wide = l;
        }
        i = i + 1;
    }
    assert(lv.take(lines@.len() as int) =~= lv);
    let w = if wide > min_inner {
        wide
    } else {
        min_inner
    };
    let inner: usize = if w < 40 {
        w as usize
    } else {
        40
    };
    let bw: usize = inner + 4;
    let indent: usize = if is_mine {
        sat_sub_exec(tw as u128, bw as u128) as usize
    } else {
        2
    };
    let pad = repeat_char(' ', indent);
    let mut out: Vec<String> = Vec::new();
    out.push(indented(&pad, header_line(nick, time, color, bw)));
    let ghost color_v = text_color(nick@, me@);
    let ghost head = seq![pad@ + bubble_header(nick@, time@, color_v, bw as int)];
    assert(out@.map_values(|l: String| l@) =~= head);
    let mut j: usize = 0;
    while j < lines.len()
        invariant
            j <= lines@.len(),
            lv == lines@.map_values(|l: String| l@),
            color@ == color_v,
            out@.map_values(|l: String| l@) == head + lv.take(j as int).map_values(
                |l: Seq<char>| pad@ + bubble_body(l, color_v, inner as int),
            ),
        decreases lines@.len() - j,
    {
        let ghost before = out@.map_values(|l: String| l@);
        out.push(indented(&pad, body_line(lines[j].as_str(), color, inner)));
        assert(lv[j as int] == lines@[j as int]@);
        assert(lv.take(j + 1).map_values(|l: Seq<char>| pad@ + bubble_body(l, color_v, inner as int))
            =~= lv.take(j as int).map_values(
            |l: Seq<char>| pad@ + bubble_body(l, color_v, inner as int),
        ).push(pad@ + bubble_body(lv[j as int], color_v, inner as int)));
        assert(out@.map_values(|l: String| l@) =~= before.push(
            pad@ + bubble_body(lv[j as int], color_v, inner as int),
        ));
        j = j + 1;
    }
    assert(lv.take(lines@.len() as int) =~= lv);
    let ghost mid = out@.map_values(|l: String| l@);
    if edited {
        out.push(indented(&pad, edited_line(inner)));
        assert(out@.map_values(|l: String| l@) =~= mid + seq![pad@ + bubble_edited(inner as int)]);
    } else {
        assert(out@.map_values(|l: String| l@) =~= mid + Seq::<Seq<char>>::empty());
    }
    let ghost mid2 = out@.map_values(|l: String| l@);
    out.push(indented(&pad, footer_line(idx, bw)));
    assert(out@.map_values(|l: String| l@) =~= mid2 + seq![pad@ + bubble_footer(idx as nat, bw as int)]);
    out
}


/// The bubble for message `idx` with timestamp `ts`, labelled with its local
/// time (see `ftime`).
pub fn bubble(idx: usize, nick: &str, text: &str, ts: i64, edited: bool, me: &str, tw: usize) -> (r:
    Vec<String>)
    ensures
        exists|time: Seq<char>|
            #![trigger bubble_spec(idx as nat, nick@, text@, time, edited, me@, tw as int)]
            (ts == 0 ==> time == Seq::<char>::empty()) && (ts != 0 ==> is_clock_label(time))
                && r@.map_values(|l: String| l@) == bubble_spec(
                idx as nat,
                nick@,
                text@,
                time,
                edited,
                me@,
                tw as int,
            ),
{
    let time = ftime(ts);
    let r = bubble_lines(idx, nick, text, time.as_str(), edited, me, tw);
    assert(r@.map_values(|l: String| l@) == bubble_spec(
        idx as nat,
        nick@,
        text@,
        time@,
        edited,
        me@,
        tw as int,
    ));
    r
}

/// A notice from the relay, centred on a terminal `tw` columns wide, with a
/// blank line before and after.
pub open spec fn system_spec(text: Seq<char>, tw: int) -> Seq<char> {
    "\n"@ + rep(' ', sat_sub(tw, byte_len(text) + 6int) / 2) + CY@ + "── "@ + text + " ──"@ + R@
        + "\n"@
}

/// A notice from the relay, centred on a terminal `tw` columns wide.
pub fn system_line(text: &str, tw: usize) -> (r: String)
    ensures
        r@ == system_spec(text@, tw as int),
{
    let pad = (sat_sub_exec(tw as u128, (utf8_len(text) as u128) + 6) / 2) as usize;
    let mut r = "\n".to_owned();
    let sp = repeat_char(' ', pad);
    push_text(&mut r, sp.as_str());
    push_text(&mut r, CY);
    push_text(&mut r, "── ");
    push_text(&mut r, text);
    push_text(&mut r, " ──");
    push_text(&mut r, R);
    push_text(&mut r, "\n");
    r
}

/// An error reported by the relay, with a blank line before and after.
pub fn error_line(text: &str) -> (r: String)
    ensures
        r@ == "\n  "@ + RE@ + "✗  "@ + text@ + R@ + "\n"@,
{
    let mut r = "\n  ".to_owned();
    push_text(&mut r, RE);
    push_text(&mut r, "✗  ");
    push_text(&mut r, text);
    push_text(&mut r, R);
    push_text(&mut r, "\n");
    r
}

/// A local warning.
pub fn err_line(m: &str) -> (r: String)
    ensures
        r@ == "  "@ + RE@ + "⚠  "@ + m@ + R@,
{
    let mut r = "  ".to_owned();
    push_text(&mut r, RE);
    push_text(&mut r, "⚠  ");
    push_text(&mut r, m);
    push_text(&mut r, R);
    r
}

/// A horizontal rule across a terminal `tw` columns wide.
pub fn rule_line(tw: usize) -> (r: String)
    ensures
        r@ == DG@ + rep('─', tw as int) + R@,
{
    let mut r = DG.to_owned();
    let d = repeat_char('─', tw);
    push_text(&mut r, d.as_str());
    push_text(&mut r, R);
    r
}

/// The bubbles of the history, for the first `n` listed messages: each stored
/// message, numbered by its place in the order.
pub open spec fn history_from(
    store: Map<Seq<char>, MsgView>,
    order: Seq<Seq<char>>,
    n: int,
) -> Seq<ShowView>
    decreases n,
{
    if n <= 0 {
        Seq::empty()
    } else {
        let prev = history_from(store, order, n - 1);
        let id = order[n - 1];
        if store.contains_key(id) {
            prev.push(bubble_of(n, store[id]))
        } else {
            prev
        }
    }
}

/// The bubbles of the history: every stored message in the order they are
/// listed, numbered by their place.
pub fn history(store: &Store, order: &Order) -> (r: Vec<Show>)
    ensures
        r@.map_values(|s: Show| s@) == history_from(
            store_view(store@),
            ids_view(order@),
            order@.len() as int,
        ),
{
    let ghost sv = store_view(store@);
    let ghost ov = ids_view(order@);
    let mut r: Vec<Show> = Vec::new();
    let mut i: usize = 0;
    while i < order.len()
        invariant
            i <= order@.len(),
            sv == store_view(store@),
            ov == ids_view(order@),
            r@.map_values(|s: Show| s@) == history_from(sv, ov, i as int),
        decreases order@.len() - i,
    {
        let ghost before = r@.map_values(|s: Show| s@);
        assert(ov[i as int] == order@[i as int]@);
        match store.get(order[i].as_str()) {
            Some(m) => {
                r.push(
                    Show::Bubble {
                        idx: i + 1,
                        nick: m.nick.clone(),
                        text: m.text.clone(),
                        ts: m.ts,
                        edited: m.edited,
                    },
                );
                assert(r@.map_values(|s: Show| s@) =~= before.push(
                    bubble_of(i + 1, sv[ov[i as int]]),
                ));
            },
            None => {},
        }
        i = i + 1;
    }
    r
}

/// When the store and the order agree, the history shows every listed
/// message exactly once, numbered 1, 2, ... in order.
pub proof fn lemma_history_shows_all(c: ChatView, n: int)
    requires
        chat_wf(c),
        0 <= n <= c.order.len(),
    ensures
        history_from(c.store, c.order, n).len() == n,
        forall|i: int|
            0 <= i < n ==> #[trigger] history_from(c.store, c.order, n)[i] == bubble_of(
                i + 1,
                c.store[c.order[i]],
            ),
    decreases n,
{
    if n > 0 {
        lemma_history_shows_all(c, n - 1);
        assert(c.store.contains_key(c.order[n - 1]));
        let h = history_from(c.store, c.order, n);
        assert forall|i: int| 0 <= i < n implies #[trigger] h[i] == bubble_of(
            i + 1,
            c.store[c.order[i]],
        ) by {
            if i < n - 1 {
                assert(h[i] == history_from(c.store, c.order, n - 1)[i]);
            }
        }
    }
}

} // verus!
