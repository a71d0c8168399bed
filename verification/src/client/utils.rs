//! Text helpers of the client: URL-encoding, clock labels, word wrapping.
use vstd::prelude::*;
use crate::text::{
    byte_len, utf8_len, words, split_words, push_char, push_text, chars_of,
    lemma_byte_len_concat, lemma_byte_len_ascii_char, lemma_words_are_words,
};
use crate::text::{is_ascii_text, is_ascii_char};
use crate::clock::{
    is_clock_label, max_duration_nanos, local_clock_at, local_clock_now, system_now, since_unix_epoch, duration_nanos,
};

verus! {

// ---------------------------------------------------------------- wrapping

/// Greedy filling of lines no longer than `max` bytes with `ws`, starting
/// from the partial line `cur`: a word goes on the current line when the line
/// stays within `max` with a space before the word, and starts a new line
/// otherwise. A word longer than `max` stands on a line of its own.
pub open spec fn fill(cur: Seq<char>, ws: Seq<Seq<char>>, max: nat) -> Seq<Seq<char>>
    decreases ws.len(),
{
    if ws.len() == 0 {
        if cur.len() == 0 {
            Seq::empty()
        } else {
            seq![cur]
        }
    } else if cur.len() == 0 {
        fill(ws[0], ws.drop_first(), max)
    } else if byte_len(cur) + 1 + byte_len(ws[0]) <= max {
        fill(cur + seq![' '] + ws[0], ws.drop_first(), max)
    } else {
        seq![cur] + fill(ws[0], ws.drop_first(), max)
    }
}

/// The lines `text` is shown in, at most `max` bytes wide: the text itself
/// when it fits, else its words filled greedily.
pub open spec fn wrap_lines(text: Seq<char>, max: nat) -> Seq<Seq<char>> {
    if byte_len(text) <= max {
        seq![text]
    } else {
        fill(Seq::empty(), words(text), max)
    }
}

/// Splits `text` into lines of at most `max` bytes, breaking between words.
pub fn wraptext(text: &str, max: usize) -> (r: Vec<String>)
    ensures
        r@.map_values(|l: String| l@) == wrap_lines(text@, max as nat),
{
    if utf8_len(text) <= max {
        let mut r: Vec<String> = Vec::new();
        r.push(text.to_owned());
        assert(r@.map_values(|l: String| l@) =~= seq![text@]);
        return r;
    }
    let ws = split_words(text);
    let ghost wv = ws@.map_values(|w: String| w@);
    let mut out: Vec<String> = Vec::new();
    let mut cur = String::new();
    let mut i: usize = 0;
    assert(wv.skip(0) =~= wv);
    assert(out@.map_values(|l: String| l@) + fill(cur@, wv, max as nat) =~= fill(
        cur@,
        wv,
        max as nat,
    ));
    while i < ws.len()
        invariant
            i <= ws@.len(),
            wv == ws@.map_values(|w: String| w@),
            wv == words(text@),
            fill(Seq::empty(), wv, max as nat) == out@.map_values(|l: String| l@) + fill(
                cur@,
                wv.skip(i as int),
                max as nat,
            ),
        decreases ws@.len() - i,
    {
        let w = &ws[i];
        let ghost rest = wv.skip(i as int);
        assert(rest[0] == w@);
        assert(rest.drop_first() =~= wv.skip(i + 1));
        let ghost before = out@.map_values(|l: String| l@);
        if cur.as_str().is_empty() {
            assert(fill(cur@, rest, max as nat) == fill(w@, wv.skip(i + 1), max as nat));
            cur = w.clone();
        } else {
            let a = utf8_len(cur.as_str());
            let b = utf8_len(w.as_str());
            if (a as u128) + 1 + (b as u128) <= (max as u128) {
                let ghost c0 = cur@;
                assert(fill(c0, rest, max as nat) == fill(c0 + seq![' '] + w@, wv.skip(i + 1), max as nat));
                push_char(&mut cur, ' ');
                push_text(&mut cur, w.as_str());
                assert(cur@ =~= c0 + seq![' '] + w@);
            } else {
                let done = cur;
                cur = w.clone();
                out.push(done);
                assert(out@.map_values(|l: String| l@) =~= before.push(done@));
                assert(before + fill(done@, rest, max as nat) =~= before.push(done@) + fill(
                    cur@,
                    wv.skip(i + 1),
                    max as nat,
                ));
            }
        }
        i = i + 1;
    }
    assert(wv.skip(ws@.len() as int) =~= Seq::<Seq<char>>::empty());
    let ghost before = out@.map_values(|l: String| l@);
    if !cur.as_str().is_empty() {
        out.push(cur);
        assert(out@.map_values(|l: String| l@) =~= before.push(cur@));
    } else {
        assert(before + fill(cur@, Seq::empty(), max as nat) =~= before);
    }
    out
}


/// Lines joined with single spaces.
pub open spec fn join_lines(ls: Seq<Seq<char>>) -> Seq<char>
    decreases ls.len(),
{
    if ls.len() == 0 {
        Seq::empty()
    } else if ls.len() == 1 {
        ls[0]
    } else {
        ls[0] + seq![' '] + join_lines(ls.drop_first())
    }
}

proof fn lemma_join_cons(x: Seq<char>, r: Seq<Seq<char>>)
    ensures
        join_lines(seq![x] + r) == if r.len() == 0 {
            x
        } else {
            x + seq![' '] + join_lines(r)
        },
{
    assert((seq![x] + r).drop_first() =~= r);
    assert((seq![x] + r)[0] == x);
}

proof fn lemma_fill_nonempty(cur: Seq<char>, ws: Seq<Seq<char>>, max: nat)
    requires
        cur.len() > 0,
    ensures
        fill(cur, ws, max).len() > 0,
    decreases ws.len(),
{
    if ws.len() > 0 {
        if byte_len(cur) + 1 + byte_len(ws[0]) <= max {
            lemma_fill_nonempty(cur + seq![' '] + ws[0], ws.drop_first(), max);
        }
    }
}

proof fn lemma_fill_join(cur: Seq<char>, ws: Seq<Seq<char>>, max: nat)
    requires
        forall|i: int| 0 <= i < ws.len() ==> (#[trigger] ws[i]).len() > 0,
    ensures
        join_lines(fill(cur, ws, max)) == join_lines(
            if cur.len() == 0 {
                ws
            } else {
                seq![cur] + ws
            },
        ),
    decreases ws.len(),
{
    if ws.len() == 0 {
        if cur.len() > 0 {
            assert(seq![cur] + ws =~= seq![cur]);
        }
    } else {
        let w = ws[0];
        let rest = ws.drop_first();
        assert(ws =~= seq![w] + rest);
        assert forall|i: int| 0 <= i < rest.len() implies (#[trigger] rest[i]).len() > 0 by {
            assert(rest[i] == ws[i + 1]);
        }
        if cur.len() == 0 {
            lemma_fill_join(w, rest, max);
        } else if byte_len(cur) + 1 + byte_len(w) <= max {
            let c2 = cur + seq![' '] + w;
            lemma_fill_join(c2, rest, max);
            lemma_join_cons(c2, rest);
            lemma_join_cons(cur, ws);
            lemma_join_cons(w, rest);
            if rest.len() > 0 {
                assert(c2 + seq![' '] + join_lines(rest) =~= cur + seq![' '] + (w + seq![' ']
                    + join_lines(rest)));
            }
        } else {
            lemma_fill_join(w, rest, max);
            lemma_fill_nonempty(w, rest, max);
            lemma_join_cons(cur, fill(w, rest, max));
            lemma_join_cons(cur, ws);
        }
    }
}

proof fn lemma_fill_widths(cur: Seq<char>, ws: Seq<Seq<char>>, max: nat, all: Seq<Seq<char>>)
    requires
        cur.len() == 0 || byte_len(cur) <= max || all.contains(cur),
        forall|j: int| 0 <= j < ws.len() ==> all.contains(#[trigger] ws[j]),
    ensures
        forall|i: int|
            0 <= i < fill(cur, ws, max).len() ==> byte_len(#[trigger] fill(cur, ws, max)[i]) <= max
                || all.contains(fill(cur, ws, max)[i]),
    decreases ws.len(),
{
    if ws.len() == 0 {
        if cur.len() > 0 {
            assert(fill(cur, ws, max)[0] == cur);
        }
    } else {
        let w = ws[0];
        let rest = ws.drop_first();
        assert(all.contains(ws[0]));
        assert forall|j: int| 0 <= j < rest.len() implies all.contains(#[trigger] rest[j]) by {
            assert(rest[j] == ws[j + 1]);
        }
        if cur.len() == 0 {
            lemma_fill_widths(w, rest, max, all);
            assert(fill(cur, ws, max) == fill(w, rest, max));
        } else if byte_len(cur) + 1 + byte_len(w) <= max {
            let c2 = cur + seq![' '] + w;
            lemma_byte_len_concat(cur + seq![' '], w);
            lemma_byte_len_concat(cur, seq![' ']);
            lemma_byte_len_ascii_char(' ');
            lemma_fill_widths(c2, rest, max, all);
            assert(fill(cur, ws, max) == fill(c2, rest, max));
        } else {
            lemma_fill_widths(w, rest, max, all);
            let f = fill(w, rest, max);
            assert forall|i: int| 0 <= i < fill(cur, ws, max).len() implies byte_len(
                #[trigger] fill(cur, ws, max)[i],
            ) <= max || all.contains(fill(cur, ws, max)[i]) by {
                if i > 0 {
                    assert(fill(cur, ws, max)[i] == f[i - 1]);
                } else {
                    assert(fill(cur, ws, max)[0] == cur);
                }
            }
        }
    }
}

/// Wrapping keeps the text: a text that fits is one line, as it is; otherwise
/// the lines, joined with single spaces, are its words joined with single
/// spaces, and no line is empty.
pub proof fn lemma_wrap_keeps_words(text: Seq<char>, max: nat)
    ensures
        byte_len(text) <= max ==> wrap_lines(text, max) == seq![text],
        byte_len(text) > max ==> join_lines(wrap_lines(text, max)) == join_lines(words(text)),
        byte_len(text) > max ==> forall|i: int|
            0 <= i < wrap_lines(text, max).len() ==> (#[trigger] wrap_lines(text, max)[i]).len()
                > 0,
{
    if byte_len(text) > max {
        lemma_words_are_words(Seq::empty(), text);
        lemma_fill_join(Seq::empty(), words(text), max);
        lemma_fill_widths_nonempty(Seq::empty(), words(text), max);
    }
}

proof fn lemma_fill_widths_nonempty(cur: Seq<char>, ws: Seq<Seq<char>>, max: nat)
    requires
        forall|i: int| 0 <= i < ws.len() ==> (#[trigger] ws[i]).len() > 0,
    ensures
        forall|i: int|
            0 <= i < fill(cur, ws, max).len() ==> (#[trigger] fill(cur, ws, max)[i]).len() > 0,
    decreases ws.len(),
{
    if ws.len() == 0 {
        if cur.len() > 0 {
            assert(fill(cur, ws, max)[0] == cur);
        }
    } else {
        let w = ws[0];
        let rest = ws.drop_first();
        assert(w.len() > 0);
        assert forall|i: int| 0 <= i < rest.len() implies (#[trigger] rest[i]).len() > 0 by {
            assert(rest[i] == ws[i + 1]);
        }
        if cur.len() == 0 {
            lemma_fill_widths_nonempty(w, rest, max);
            assert(fill(cur, ws, max) == fill(w, rest, max));
        } else if byte_len(cur) + 1 + byte_len(w) <= max {
            lemma_fill_widths_nonempty(cur + seq![' '] + w, rest, max);
            assert(fill(cur, ws, max) == fill(cur + seq![' '] + w, rest, max));
        } else {
            lemma_fill_widths_nonempty(w, rest, max);
            let f = fill(w, rest, max);
            assert forall|i: int| 0 <= i < fill(cur, ws, max).len() implies (#[trigger] fill(
                cur,
                ws,
                max,
            )[i]).len() > 0 by {
                if i > 0 {
                    assert(fill(cur, ws, max)[i] == f[i - 1]);
                } else {
                    assert(fill(cur, ws, max)[0] == cur);
                }
            }
        }
    }
}

/// Every line of a wrapped text fits in `max` bytes, unless it is a single
/// word too long to fit.
pub proof fn lemma_wrap_widths(text: Seq<char>, max: nat)
    ensures
        forall|i: int|
            0 <= i < wrap_lines(text, max).len() ==> byte_len(#[trigger] wrap_lines(text, max)[i])
                <= max || words(text).contains(wrap_lines(text, max)[i]),
{
    if byte_len(text) > max {
        let ws = words(text);
        assert forall|j: int| 0 <= j < ws.len() implies ws.contains(#[trigger] ws[j]) by {}
        lemma_fill_widths(Seq::empty(), ws, max, ws);
    }
}


// ---------------------------------------------------------------- URL encoding

/// A character that URL-encoding leaves as it is: ASCII letters and digits
/// and `-`, `_`, `.`, `~`.
pub open spec fn unreserved(c: char) -> bool {
    ('A' <= c && c <= 'Z') || ('a' <= c && c <= 'z') || ('0' <= c && c <= '9') || c == '-'
        || c == '_' || c == '.' || c == '~'
}

/// The upper-case hexadecimal digit for `d < 16`.
pub open spec fn hex_digit(d: nat) -> char {
    if d < 10 {
        ((48 + d) as u8) as char
    } else {
        ((55 + d) as u8) as char
    }
}

/// The upper-case hexadecimal numeral of `n`, without leading zeros.
pub open spec fn hex_upper(n: nat) -> Seq<char>
    decreases n,
{
    if n < 16 {
        seq![hex_digit(n)]
    } else {
        hex_upper(n / 16).push(hex_digit(n % 16))
    }
}

/// What URL-encoding makes of one character: itself when unreserved, else
/// `%` and its code point in upper-case hexadecimal, at least two digits.
pub open spec fn escape_char(c: char) -> Seq<char> {
    if unreserved(c) {
        seq![c]
    } else {
        let h = hex_upper(c as u32 as nat);
        seq!['%'] + if h.len() < 2 {
            seq!['0'] + h
        } else {
            h
        }
    }
}

/// The URL-encoding of a text, character by character.
pub open spec fn enc_text(s: Seq<char>) -> Seq<char>
    decreases s.len(),
{
    if s.len() == 0 {
        Seq::empty()
    } else {
        enc_text(s.drop_last()) + escape_char(s.last())
    }
}

fn hex_text(n: u32, out: &mut String)
    ensures
        final(out)@ == old(out)@ + hex_upper(n as nat),
    decreases n,
{
    let d: u8 = (n % 16) as u8;
    let c = if d < 10 {
        (48u8 + d) as char
    } else {
        (55u8 + d) as char
    };
    if n >= 16 {
        hex_text(n / 16, out);
    }
    push_char(out, c);
    assert(hex_upper(n as nat) =~= if n < 16 {
        seq![hex_digit(n as nat)]
    } else {
        hex_upper((n / 16) as nat).push(hex_digit((n % 16) as nat))
    });
}

/// Percent-encodes a text for a URL query: unreserved characters stay, every
/// other character becomes `%` and its code point in upper-case hex.
pub fn enc(s: &str) -> (r: String)
    ensures
        r@ == enc_text(s@),
{
    let cs = chars_of(s);
    let mut r = String::new();
    let mut i: usize = 0;
    while i < cs.len()
        invariant
            i <= cs@.len(),
            cs@ == s@,
            r@ == enc_text(s@.take(i as int)),
        decreases cs@.len() - i,
    {
        let c = cs[i];
        let ghost before = r@;
        if ('A' <= c && c <= 'Z') || ('a' <= c && c <= 'z') || ('0' <= c && c <= '9') || c == '-'
            || c == '_' || c == '.' || c == '~' {
            push_char(&mut r, c);
        } else {
            push_char(&mut r, '%');
            let code = c as u32;
            if code < 16 {
                push_char(&mut r, '0');
            }
            let ghost mid = r@;
            hex_text(code, &mut r);
            proof {
                let h = hex_upper(code as nat);
                assert(code < 16 ==> h.len() == 1);
                assert(code >= 16 ==> h.len() >= 2) by {
                    if code >= 16 {
                        assert(hex_upper((code / 16) as nat).len() >= 1) by {
                            let q = (code / 16) as nat;
                            if q >= 16 {
                                assert(hex_upper(q) == hex_upper(q / 16).push(hex_digit(q % 16)));
                            }
                        }
                    }
                }
            }
        }
        assert(s@.take(i + 1).drop_last() =~= s@.take(i as int));
        assert(s@.take(i + 1).last() == c);
        assert(r@ =~= before + escape_char(c));
        i = i + 1;
    }
    assert(s@.take(cs@.len() as int) =~= s@);
    r
}

/// URL-encoding encodes each part of a text on its own.
pub proof fn lemma_enc_concat(a: Seq<char>, b: Seq<char>)
    ensures
        enc_text(a + b) == enc_text(a) + enc_text(b),
    decreases b.len(),
{
    if b.len() == 0 {
        assert(a + b =~= a);
        assert(enc_text(a) + enc_text(b) =~= enc_text(a));
    } else {
        assert((a + b).drop_last() =~= a + b.drop_last());
        assert((a + b).last() == b.last());
        lemma_enc_concat(a, b.drop_last());
        assert(enc_text(a) + enc_text(b) =~= enc_text(a) + enc_text(b.drop_last()) + escape_char(
            b.last(),
        ));
    }
}

proof fn lemma_hex_digits_unreserved(n: nat)
    ensures
        forall|i: int| 0 <= i < hex_upper(n).len() ==> unreserved(#[trigger] hex_upper(n)[i]),
        hex_upper(n).len() >= 1,
    decreases n,
{
    if n >= 16 {
        lemma_hex_digits_unreserved(n / 16);
        let h = hex_upper(n);
        assert forall|i: int| 0 <= i < h.len() implies unreserved(#[trigger] h[i]) by {
            if i < h.len() - 1 {
                assert(h[i] == hex_upper(n / 16)[i]);
            }
        }
    }
}

/// URL-encoded text holds only unreserved characters and `%`, and a text of
/// unreserved characters encodes to itself.
pub proof fn lemma_enc_is_url_safe(s: Seq<char>)
    ensures
        forall|i: int|
            0 <= i < enc_text(s).len() ==> unreserved(#[trigger] enc_text(s)[i]) || enc_text(s)[i]
                == '%',
        (forall|i: int| 0 <= i < s.len() ==> unreserved(#[trigger] s[i])) ==> enc_text(s) == s,
    decreases s.len(),
{
    if s.len() > 0 {
        let d = s.drop_last();
        lemma_enc_is_url_safe(d);
        let c = s.last();
        lemma_hex_digits_unreserved(c as u32 as nat);
        let e = escape_char(c);
        assert forall|i: int| 0 <= i < e.len() implies unreserved(#[trigger] e[i]) || e[i] == '%' by {
            if !unreserved(c) {
                let h = hex_upper(c as u32 as nat);
                if h.len() < 2 {
                    if i >= 2 {
                        assert(e[i] == h[i - 2]);
                    }
                } else if i >= 1 {
                    assert(e[i] == h[i - 1]);
                }
            }
        }
        let t = enc_text(s);
        assert forall|i: int| 0 <= i < t.len() implies unreserved(#[trigger] t[i]) || t[i] == '%' by {
            if i < enc_text(d).len() {
                assert(t[i] == enc_text(d)[i]);
            } else {
                assert(t[i] == e[i - enc_text(d).len()]);
            }
        }
        if forall|i: int| 0 <= i < s.len() ==> unreserved(#[trigger] s[i]) {
            assert(forall|i: int| 0 <= i < d.len() ==> unreserved(#[trigger] d[i])) by {
                assert forall|i: int| 0 <= i < d.len() implies unreserved(#[trigger] d[i]) by {
                    assert(d[i] == s[i]);
                }
            }
            assert(unreserved(s[s.len() - 1]));
            assert(enc_text(s) =~= s);
        }
    }
}

/// The value of a hexadecimal digit (either case), or 0 for any other character.
pub open spec fn hex_value(c: char) -> nat {
    let n = c as u32;
    if 48 <= n <= 57 {
        (n - 48) as nat
    } else if 65 <= n <= 70 {
        (n - 55) as nat
    } else if 97 <= n <= 102 {
        (n - 87) as nat
    } else {
        0
    }
}

/// Percent-decoding of ASCII text: `%` and two hexadecimal digits stand for
/// the character with that code; every other character stands for itself.
pub open spec fn dec_text(s: Seq<char>) -> Seq<char>
    decreases s.len(),
{
    if s.len() == 0 {
        Seq::empty()
    } else if s[0] == '%' && s.len() >= 3 {
        seq![((hex_value(s[1]) * 16 + hex_value(s[2])) as u32) as char] + dec_text(s.skip(3))
    } else {
        seq![s[0]] + dec_text(s.skip(1))
    }
}

proof fn lemma_hex_value_of_digit(d: nat)
    requires
        d < 16,
    ensures
        hex_value(hex_digit(d)) == d,
{
    if d < 10 {
        assert((hex_digit(d) as u32) == 48 + d);
    } else {
        assert((hex_digit(d) as u32) == 55 + d);
    }
}

/// An ASCII character that is not unreserved is escaped as `%` and exactly
/// two hexadecimal digits.
proof fn lemma_escape_ascii(c: char)
    requires
        (c as u32) < 128,
        !unreserved(c),
    ensures
        escape_char(c) == seq!['%', hex_digit((c as u32 as nat) / 16), hex_digit(
            (c as u32 as nat) % 16,
        )],
{
    let n = c as u32 as nat;
    if n < 16 {
        assert(hex_digit(0) == '0');
        assert(escape_char(c) =~= seq!['%', hex_digit(n / 16), hex_digit(n % 16)]);
    } else {
        assert(n / 16 < 16);
        assert(hex_upper(n / 16) == seq![hex_digit(n / 16)]);
        assert(hex_upper(n) =~= seq![hex_digit(n / 16), hex_digit(n % 16)]);
        assert(escape_char(c) =~= seq!['%', hex_digit(n / 16), hex_digit(n % 16)]);
    }
}

proof fn lemma_dec_escape(c: char, t: Seq<char>)
    requires
        (c as u32) < 128,
    ensures
        dec_text(escape_char(c) + t) == seq![c] + dec_text(t),
{
    let e = escape_char(c);
    if unreserved(c) {
        assert((e + t)[0] == c);
        assert((e + t).skip(1) =~= t);
    } else {
        lemma_escape_ascii(c);
        let n = c as u32 as nat;
        lemma_hex_value_of_digit(n / 16);
        lemma_hex_value_of_digit(n % 16);
        assert((e + t)[0] == '%');
        assert((e + t)[1] == hex_digit(n / 16));
        assert((e + t)[2] == hex_digit(n % 16));
        assert((e + t).skip(3) =~= t);
        assert((n / 16) * 16 + n % 16 == n) by (nonlinear_arith);
        vstd::utf8::char_u32_cast(c, c as u32);
    }
}

/// Percent-decoding gives back an ASCII text from its URL-encoding.
pub proof fn lemma_enc_decodes(s: Seq<char>)
    requires
        is_ascii_text(s),
    ensures
        dec_text(enc_text(s)) == s,
    decreases s.len(),
{
    if s.len() > 0 {
        let rest = s.drop_first();
        assert forall|i: int| 0 <= i < rest.len() implies is_ascii_char(#[trigger] rest[i]) by {
            assert(rest[i] == s[i + 1]);
        }
        lemma_enc_decodes(rest);
        assert(s =~= seq![s[0]] + rest);
        lemma_enc_concat(seq![s[0]], rest);
        assert(seq![s[0]].drop_last() =~= Seq::<char>::empty());
        assert(seq![s[0]].last() == s[0]);
        assert(enc_text(Seq::<char>::empty()) == Seq::<char>::empty());
        assert(enc_text(seq![s[0]]) =~= escape_char(s[0]));
        assert(is_ascii_char(s[0]));
        lemma_dec_escape(s[0], enc_text(rest));
    } else {
        assert(enc_text(s) == Seq::<char>::empty());
    }
}

/// URL-encoding tells ASCII texts apart: two that encode alike are equal.
pub proof fn lemma_enc_injective(a: Seq<char>, b: Seq<char>)
    requires
        is_ascii_text(a),
        is_ascii_text(b),
        enc_text(a) == enc_text(b),
    ensures
        a == b,
{
    lemma_enc_decodes(a);
    lemma_enc_decodes(b);
}

// ---------------------------------------------------------------- clock

/// The local wall-clock time of a message timestamp (milliseconds since the
/// epoch) as `HH:MM`, or nothing for a timestamp of 0. When the local time
/// zone cannot map the timestamp to one instant, the current time is shown.
pub fn ftime(ts: i64) -> (r: String)
    ensures
        ts == 0 ==> r@ == Seq::<char>::empty(),
        ts != 0 ==> is_clock_label(r@),
{
    if ts == 0 {
        return String::new();
    }
    match local_clock_at(ts) {
        Some(s) => s,
        None => local_clock_now(),
    }
}

/// Nanoseconds since the Unix epoch by the system clock, or 0 when the clock
/// reads a time before the epoch. Whatever the clock reads, the number is
/// that of a `Duration`, so at most the nanoseconds of `Duration::MAX`.
pub fn ns() -> (r: u128)
    ensures
        r <= max_duration_nanos(),
{
    let now = system_now();
    match since_unix_epoch(&now) {
        Some(d) => duration_nanos(&d),
        None => 0,
    }
}

} // verus!
