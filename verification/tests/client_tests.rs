use viva_chat::client::chat::{handle_in, mine, pos, sv, upsert, Show};
use viva_chat::client::colors::{DG, R, W, Y, CY, RE};
use viva_chat::client::types::{Msg, Order, Pending, Store};
use viva_chat::client::ui::{bubble, bubble_lines, err_line, error_line, history, rule_line, system_line};
use viva_chat::client::utils::{enc, ftime, ns, wraptext};

fn ev(s: &str) -> serde_json::Value {
    serde_json::from_str(s).unwrap()
}

fn msg(id: &str, nick: &str, text: &str, ts: i64) -> Msg {
    Msg { msg_id: id.to_string(), nick: nick.to_string(), text: text.to_string(), ts, edited: false }
}

fn fresh() -> (Store, Order, Pending) {
    (Store::new(), Vec::new(), Vec::new())
}

/// The wrapping rule spelled out directly, to compare with.
fn wrap_oracle(text: &str, max: usize) -> Vec<String> {
    if text.len() <= max {
        return vec![text.to_string()];
    }
    let mut out = Vec::new();
    let mut cur = String::new();
    for word in text.split_whitespace() {
        if cur.is_empty() {
            cur = word.to_string();
        } else if cur.len() + 1 + word.len() <= max {
            cur.push(' ');
            cur.push_str(word);
        } else {
            out.push(cur.clone());
            cur = word.to_string();
        }
    }
    if !cur.is_empty() {
        out.push(cur);
    }
    out
}

#[test]
fn wraptext_short_text_is_kept() {
    assert_eq!(wraptext("  hi  there ", 40), vec!["  hi  there ".to_string()]);
    assert_eq!(wraptext("", 0), vec!["".to_string()]);
}

#[test]
fn wraptext_breaks_between_words() {
    let t = "the quick brown fox jumps over the lazy dog";
    assert_eq!(wraptext(t, 10), vec!["the quick", "brown fox", "jumps over", "the lazy", "dog"]);
    assert_eq!(wraptext("a reallylongwordhere b", 5), vec!["a", "reallylongwordhere", "b"]);
    for (t, m) in [(t, 3), (t, 15), ("héllo wörld ünïcode text", 12), ("   ", 1), ("x  y", 2)] {
        assert_eq!(wraptext(t, m), wrap_oracle(t, m), "text {:?} max {}", t, m);
    }
}

#[test]
fn wraptext_lines_fit_or_are_single_words() {
    let t = "lorem ipsum dolor sit amet consectetur adipiscing elit sed do eiusmod";
    for max in 1..30 {
        let lines = wraptext(t, max);
        assert_eq!(lines.join(" "), t.split_whitespace().collect::<Vec<_>>().join(" "));
        for l in &lines {
            assert!(l.len() <= max || !l.contains(' '));
            assert!(!l.is_empty());
        }
    }
}

#[test]
fn enc_percent_encodes() {
    assert_eq!(enc("abc-_.~XYZ019"), "abc-_.~XYZ019");
    assert_eq!(enc("a b"), "a%20b");
    assert_eq!(enc("\n"), "%0A");
    assert_eq!(enc("é"), "%E9");
    assert_eq!(enc("😀"), "%1F600");
    assert_eq!(enc("a/b?c=d&e"), "a%2Fb%3Fc%3Dd%26e");
    assert_eq!(enc(""), "");
}

#[test]
fn enc_of_parts() {
    let a = "room key/1";
    let b = "é x";
    assert_eq!(enc(&format!("{}{}", a, b)), format!("{}{}", enc(a), enc(b)));
}

#[test]
fn ftime_labels() {
    assert_eq!(ftime(0), "");
    let t = ftime(1_700_000_000_000);
    assert_eq!(t.len(), 5);
    assert_eq!(t.as_bytes()[2], b':');
    assert!(t.chars().filter(|c| c.is_ascii_digit()).count() == 4);
}

#[test]
fn ns_reads_the_clock() {
    assert!(ns() > 1_600_000_000_000_000_000);
}

#[test]
fn upsert_numbers_messages() {
    let (mut st, mut o, _) = fresh();
    assert_eq!(upsert(&mut st, &mut o, msg("a", "me", "one", 1)), 1);
    assert_eq!(upsert(&mut st, &mut o, msg("b", "you", "two", 2)), 2);
    assert_eq!(upsert(&mut st, &mut o, msg("a", "me", "one again", 3)), 1);
    assert_eq!(o, vec!["a".to_string(), "b".to_string()]);
    assert_eq!(st.get("a").unwrap().text, "one again");
    assert_eq!(pos(&o, "b"), 2);
    assert_eq!(pos(&o, "zzz"), 1);
}

#[test]
fn handle_msg_and_history() {
    let (mut st, mut o, mut p) = fresh();
    let s = handle_in(
        &ev(r#"{"type":"msg","msg_id":"m1","nick":"bob","text":"hi","timestamp":5,"edited":false}"#),
        "alice", "bob", &mut st, &mut o, &mut p,
    );
    match s {
        Show::Bubble { idx, nick, text, ts, edited } => {
            assert_eq!((idx, nick.as_str(), text.as_str(), ts, edited), (1, "bob", "hi", 5, false));
        }
        _ => panic!("expected a bubble"),
    }
    let again = handle_in(
        &ev(r#"{"type":"history","msg_id":"m1","nick":"bob","text":"hi","timestamp":5}"#),
        "alice", "bob", &mut st, &mut o, &mut p,
    );
    assert!(matches!(again, Show::Nothing));
    let h = handle_in(
        &ev(r#"{"type":"history","msg_id":"m0","nick":"alice","text":"old","timestamp":"x","edited":true}"#),
        "alice", "bob", &mut st, &mut o, &mut p,
    );
    match h {
        Show::Bubble { idx, ts, edited, .. } => assert_eq!((idx, ts, edited), (2, 0, true)),
        _ => panic!("expected a bubble"),
    }
    assert_eq!(o, vec!["m1".to_string(), "m0".to_string()]);
}

#[test]
fn handle_ack_renames_pending() {
    let (mut st, mut o, mut p) = fresh();
    upsert(&mut st, &mut o, msg("local-1", "alice", "hello", 0));
    upsert(&mut st, &mut o, msg("x", "bob", "yo", 1));
    p.push("local-1".to_string());
    let s = handle_in(&ev(r#"{"type":"ack","msg_id":"srv-9","timestamp":42}"#), "alice", "bob", &mut st, &mut o, &mut p);
    assert!(matches!(s, Show::Nothing));
    assert!(p.is_empty());
    assert_eq!(o, vec!["srv-9".to_string(), "x".to_string()]);
    assert!(st.get("local-1").is_none());
    let m = st.get("srv-9").unwrap();
    assert_eq!((m.msg_id.as_str(), m.text.as_str(), m.ts), ("srv-9", "hello", 42));
    assert_eq!(pos(&o, "srv-9"), 1);
    // nothing pending: nothing changes
    let s = handle_in(&ev(r#"{"type":"ack","msg_id":"srv-10","timestamp":43}"#), "alice", "bob", &mut st, &mut o, &mut p);
    assert!(matches!(s, Show::Nothing));
    assert_eq!(o.len(), 2);
}

#[test]
fn handle_edit_and_delete() {
    let (mut st, mut o, mut p) = fresh();
    upsert(&mut st, &mut o, msg("a", "bob", "first", 7));
    upsert(&mut st, &mut o, msg("b", "bob", "second", 8));
    let s = handle_in(&ev(r#"{"type":"edit","msg_id":"b","text":"changed"}"#), "alice", "bob", &mut st, &mut o, &mut p);
    match s {
        Show::Bubble { idx, nick, text, ts, edited } => {
            assert_eq!((idx, nick.as_str(), text.as_str(), ts, edited), (2, "bob", "changed", 8, true));
        }
        _ => panic!("expected a bubble"),
    }
    assert!(st.get("b").unwrap().edited);
    assert_eq!(st.get("b").unwrap().text, "changed");
    let s = handle_in(&ev(r#"{"type":"delete","msg_id":"a"}"#), "alice", "bob", &mut st, &mut o, &mut p);
    match s {
        Show::Bubble { idx, text, edited, .. } => assert_eq!((idx, text.as_str(), edited), (1, "[ deleted ]", false)),
        _ => panic!("expected a bubble"),
    }
    assert!(st.get("a").is_some());
    let s = handle_in(&ev(r#"{"type":"edit","msg_id":"nope","text":"x"}"#), "alice", "bob", &mut st, &mut o, &mut p);
    assert!(matches!(s, Show::Nothing));
    let s = handle_in(&ev(r#"{"type":"delete","msg_id":"nope"}"#), "alice", "bob", &mut st, &mut o, &mut p);
    assert!(matches!(s, Show::Nothing));
}

#[test]
fn handle_notices() {
    let (mut st, mut o, mut p) = fresh();
    match handle_in(&ev(r#"{"type":"system","text":"bob joined"}"#), "a", "b", &mut st, &mut o, &mut p) {
        Show::System { text } => assert_eq!(text, "bob joined"),
        _ => panic!("expected a notice"),
    }
    match handle_in(&ev(r#"{"type":"error","text":"nope"}"#), "a", "b", &mut st, &mut o, &mut p) {
        Show::Error { text } => assert_eq!(text, "nope"),
        _ => panic!("expected an error"),
    }
    assert!(matches!(handle_in(&ev(r#"{"type":"other"}"#), "a", "b", &mut st, &mut o, &mut p), Show::Nothing));
    assert!(matches!(handle_in(&ev(r#"[1,2]"#), "a", "b", &mut st, &mut o, &mut p), Show::Nothing));
}

#[test]
fn sv_reads_strings_only() {
    let v = ev(r#"{"a":"x","b":3,"c":null}"#);
    assert_eq!(sv(&v, "a"), "x");
    assert_eq!(sv(&v, "b"), "");
    assert_eq!(sv(&v, "c"), "");
    assert_eq!(sv(&v, "d"), "");
    assert_eq!(sv(&ev("\"str\""), "a"), "");
}

#[test]
fn mine_finds_own_messages() {
    let (mut st, mut o, _) = fresh();
    upsert(&mut st, &mut o, msg("abc123", "alice", "one", 1));
    upsert(&mut st, &mut o, msg("abd456", "bob", "two", 2));
    upsert(&mut st, &mut o, msg("xyz789", "alice", "three", 3));
    assert_eq!(mine("1", &o, &st, "alice"), Some("abc123".to_string()));
    assert_eq!(mine("2", &o, &st, "alice"), None);
    assert_eq!(mine("+3", &o, &st, "alice"), Some("xyz789".to_string()));
    assert_eq!(mine("0", &o, &st, "alice"), None);
    assert_eq!(mine("4", &o, &st, "alice"), None);
    assert_eq!(mine("ab", &o, &st, "alice"), None);
    assert_eq!(mine("abc", &o, &st, "alice"), Some("abc123".to_string()));
    assert_eq!(mine("abd", &o, &st, "alice"), None);
    assert_eq!(mine("x", &o, &st, "alice"), Some("xyz789".to_string()));
    assert_eq!(mine("q", &o, &st, "alice"), None);
}

/// The bubble layout spelled out directly, to compare with.
fn bubble_oracle(idx: usize, nick: &str, text: &str, time: &str, edited: bool, me: &str, tw: usize) -> Vec<String> {
    let is_mine = nick == me;
    let color = if is_mine { W } else { Y };
    let lines = wrap_oracle(text, 40);
    let min_inner = nick.len() + time.len() + 4;
    let inner = lines.iter().map(|l| l.len()).max().unwrap_or(0).max(min_inner).min(40);
    let bw = inner + 4;
    let head_text_len = 2 + nick.len() + 2 + time.len() + 1;
    let head_dashes = bw.saturating_sub(head_text_len + 2);
    let header = format!("{DG}┌─ {color}{nick}{DG}  {time}{}{DG}─┐{R}", "─".repeat(head_dashes));
    let mut out = Vec::new();
    let indent = if is_mine { tw.saturating_sub(bw) } else { 2 };
    let pad = " ".repeat(indent);
    out.push(format!("{pad}{header}"));
    for l in &lines {
        let p = inner.saturating_sub(l.len());
        out.push(format!("{pad}{DG}│{R} {color}{l}{R}{} {DG}│{R}", " ".repeat(p)));
    }
    if edited {
        let p = inner.saturating_sub(8);
        out.push(format!("{pad}{DG}│{R} {DG}✎ edited{R}{} {DG}│{R}", " ".repeat(p)));
    }
    let itag = format!("[{idx}]");
    let fdash = bw.saturating_sub(itag.len() + 4);
    out.push(format!("{pad}{DG}└{}{}──┘{R}", "─".repeat(fdash), itag));
    out
}

#[test]
fn bubble_layout_matches() {
    let cases = [
        (1, "bob", "hi", "12:30", false, "alice", 80),
        (12, "alice", "a somewhat longer message that will need to be wrapped over lines", "09:05", true, "alice", 100),
        (3, "alice", "hi", "", false, "alice", 10),
        (100, "a-very-long-nickname-here", "x", "23:59", true, "me", 60),
    ];
    for (idx, nick, text, time, edited, me, tw) in cases {
        assert_eq!(bubble_lines(idx, nick, text, time, edited, me, tw), bubble_oracle(idx, nick, text, time, edited, me, tw));
    }
    let b = bubble(1, "bob", "hi", 0, false, "alice", 80);
    assert_eq!(b, bubble_oracle(1, "bob", "hi", "", false, "alice", 80));
}

#[test]
fn notice_lines() {
    let pad = (80usize.saturating_sub("bob joined".len() + 6)) / 2;
    assert_eq!(system_line("bob joined", 80), format!("\n{}{CY}── bob joined ──{R}\n", " ".repeat(pad)));
    assert_eq!(system_line("long", 3), format!("\n{CY}── long ──{R}\n"));
    assert_eq!(error_line("bad"), format!("\n  {RE}✗  bad{R}\n"));
    assert_eq!(err_line("careful"), format!("  {RE}⚠  careful{R}"));
    assert_eq!(rule_line(3), format!("{DG}───{R}"));
}

#[test]
fn history_lists_every_message() {
    let (mut st, mut o, _) = fresh();
    upsert(&mut st, &mut o, msg("a", "bob", "one", 1));
    upsert(&mut st, &mut o, msg("b", "alice", "two", 2));
    let h = history(&st, &o);
    assert_eq!(h.len(), 2);
    match &h[1] {
        Show::Bubble { idx, nick, text, ts, .. } => assert_eq!((*idx, nick.as_str(), text.as_str(), *ts), (2, "alice", "two", 2)),
        _ => panic!("expected a bubble"),
    }
}

/// Percent-decoding of ASCII text, to check that encoding can be undone.
fn pct_decode(s: &str) -> String {
    let b = s.as_bytes();
    let mut out = String::new();
    let mut i = 0;
    while i < b.len() {
        if b[i] == b'%' && i + 2 < b.len() {
            let v = u8::from_str_radix(&s[i + 1..i + 3], 16).unwrap();
            out.push(v as char);
            i += 3;
        } else {
            out.push(b[i] as char);
            i += 1;
        }
    }
    out
}

#[test]
fn encoding_ascii_can_be_undone() {
    for s in ["", "abc", "a b/c?d=e&f", "100%", "\t~._-", "Hello, World!", "\u{1}\u{7f}"] {
        assert_eq!(pct_decode(&enc(s)), s);
    }
    assert_ne!(enc("a b"), enc("a+b"));
    assert_eq!(enc("\t"), "%09");
}

#[test]
fn shown_number_selects_the_message() {
    let (mut store, mut order, _pending) = fresh();
    upsert(&mut store, &mut order, msg("x1", "bob", "hey", 1));
    let n = upsert(&mut store, &mut order, msg("x2", "me", "one", 2));
    upsert(&mut store, &mut order, msg("x3", "me", "two", 3));
    assert_eq!(mine(&n.to_string(), &order, &store, "me"), Some("x2".to_string()));
    let n1 = pos(&order, "x1");
    assert_eq!(mine(&n1.to_string(), &order, &store, "me"), None);
    let again = upsert(&mut store, &mut order, msg("x2", "me", "one, edited", 2));
    assert_eq!(again, n);
    assert_eq!(mine(&again.to_string(), &order, &store, "me"), Some("x2".to_string()));
}
